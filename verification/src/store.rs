//! The inventory store: one snapshot of which hosts exist and which
//! data folders (applications) each host serves. Keys are unique and
//! kept in lexicographic order so listings are stable and diffable.

use vstd::prelude::*;

use crate::text::{lemma_lex_lt_connected, lemma_lex_lt_irrefl, lemma_lex_lt_trans, lex_lt, str_eq, str_lt};

verus! {

/// One discoverable application root under a host's `/data` directory.
/// `container` is reserved for a future per-folder container binding and
/// is currently always absent; it is preserved for forward compatibility.
#[derive(Debug, PartialEq)]
pub struct DataFolder {
    pub path: String,
    pub container: Option<String>,
}

pub struct FolderView {
    pub path: Seq<char>,
    pub container: Option<Seq<char>>,
}

impl View for DataFolder {
    type V = FolderView;

    open spec fn view(&self) -> FolderView {
        FolderView {
            path: self.path@,
            container: match self.container {
                Option::Some(c) => Option::Some(c@),
                Option::None => Option::None,
            },
        }
    }
}

/// One host's probe result: when the probe ran and what it found.
/// `last_updated` is informational only; entries never auto-expire.
#[derive(Debug, PartialEq)]
pub struct ServerEntry {
    pub last_updated: i64,
    pub data_folders: Vec<DataFolder>,
}

pub struct EntryView {
    pub last_updated: int,
    pub data_folders: Seq<FolderView>,
}

pub open spec fn folders_view(s: Seq<DataFolder>) -> Seq<FolderView> {
    s.map_values(|f: DataFolder| f@)
}

impl View for ServerEntry {
    type V = EntryView;

    open spec fn view(&self) -> EntryView {
        EntryView {
            last_updated: self.last_updated as int,
            data_folders: folders_view(self.data_folders@),
        }
    }
}

/// The inventory: hosts mapped to their probe results, stored as an
/// association list whose keys are strictly sorted.
#[derive(Debug, PartialEq)]
pub struct ServersCache {
    pub servers: Vec<(String, ServerEntry)>,
}

/// The entry for key `k`, taking the latest binding when a key repeats.
pub open spec fn lookup(s: Seq<(String, ServerEntry)>, k: Seq<char>) -> Option<EntryView>
    decreases s.len(),
{
    if s.len() == 0 {
        Option::None
    } else if s.last().0@ == k {
        Option::Some(s.last().1@)
    } else {
        lookup(s.drop_last(), k)
    }
}

pub proof fn lemma_lookup_concat(s1: Seq<(String, ServerEntry)>, s2: Seq<(String, ServerEntry)>, k: Seq<char>)
    ensures
        lookup(s1 + s2, k) == (if lookup(s2, k) is Some {
            lookup(s2, k)
        } else {
            lookup(s1, k)
        }),
    decreases s2.len(),
{
    if s2.len() == 0 {
        assert(s1 + s2 =~= s1);
    } else {
        assert((s1 + s2).last() == s2.last());
        assert((s1 + s2).drop_last() =~= s1 + s2.drop_last());
        lemma_lookup_concat(s1, s2.drop_last(), k);
    }
}

pub proof fn lemma_lookup_absent(s: Seq<(String, ServerEntry)>, k: Seq<char>)
    requires
        forall|i: int| 0 <= i < s.len() ==> s[i].0@ != k,
    ensures
        lookup(s, k) is None,
    decreases s.len(),
{
    if s.len() > 0 {
        lemma_lookup_absent(s.drop_last(), k);
    }
}

impl ServersCache {
    /// Keys strictly increase, hence are unique.
    pub open spec fn wf(self) -> bool {
        forall|i: int, j: int|
            0 <= i < j < self.servers@.len() ==> lex_lt(
                #[trigger] self.servers@[i].0@,
                #[trigger] self.servers@[j].0@,
            )
    }

    /// The mathematical content of the store: hosts to entries.
    pub open spec fn as_map(self) -> Map<Seq<char>, EntryView> {
        Map::new(
            |k: Seq<char>| lookup(self.servers@, k) is Some,
            |k: Seq<char>| lookup(self.servers@, k)->Some_0,
        )
    }

    /// Records one probe result: the host is bound to the given folders
    /// and timestamp, replacing any earlier binding, and key order is kept.
    pub fn insert_probe(&mut self, host: String, now: i64, folders: Vec<DataFolder>)
        requires
            old(self).wf(),
        ensures
            final(self).wf(),
            final(self).as_map() == old(self).as_map().insert(
                host@,
                EntryView { last_updated: now as int, data_folders: folders_view(folders@) },
            ),
    {
        let entry = ServerEntry { last_updated: now, data_folders: folders };
        let ghost entry_v = EntryView { last_updated: now as int, data_folders: folders_view(folders@) };
        assert(entry@ == entry_v);
        let mut i: usize = 0;
        while i < self.servers.len() && str_lt(self.servers[i].0.as_str(), host.as_str())
            invariant
                i <= self.servers@.len(),
                forall|j: int| 0 <= j < i ==> lex_lt(#[trigger] self.servers@[j].0@, host@),
            decreases self.servers@.len() - i,
        {
            i = i + 1;
        }
        let ghost s = self.servers@;
        if i < self.servers.len() && str_eq(self.servers[i].0.as_str(), host.as_str()) {
            proof {
                assert(s[i as int].0@ == host@);
                assert(forall|j: int|
                    i < j < s.len() ==> (#[trigger] s[j].0@) != host@) by {
                    assert forall|j: int| i < j < s.len() implies (#[trigger] s[j].0@) != host@ by {
                        assert(lex_lt(s[i as int].0@, s[j].0@));
                        lemma_lex_lt_irrefl(host@);
                    }
                }
                assert(forall|j: int|
                    0 <= j < i ==> (#[trigger] s[j].0@) != host@) by {
                    assert forall|j: int| 0 <= j < i implies (#[trigger] s[j].0@) != host@ by {
                        lemma_lex_lt_irrefl(host@);
                    }
                }
            }
            self.servers.set(i, (host, entry));
            proof {
                let t = self.servers@;
                assert(t =~= s.update(i as int, (t[i as int].0, t[i as int].1)));
                assert forall|p: int, q: int|
                    0 <= p < q < t.len() implies lex_lt(#[trigger] t[p].0@, #[trigger] t[q].0@) by {
                    assert(t[p].0@ == s[p].0@);
                    assert(t[q].0@ == s[q].0@);
                }
                lemma_replace_map(s, t, i as int, host@, entry_v);
                assert(self.as_map() =~= old(self).as_map().insert(host@, entry_v));
            }
        } else {
            proof {
                if i < s.len() {
                    assert(!lex_lt(s[i as int].0@, host@));
                    assert(s[i as int].0@ != host@);
                    if !lex_lt(host@, s[i as int].0@) {
                        lemma_lex_lt_connected(s[i as int].0@, host@);
                        assert(false);
                    }
                }
                assert forall|j: int| 0 <= j < s.len() implies (#[trigger] s[j].0@) != host@ by {
                    lemma_lex_lt_irrefl(host@);
                    if j < i {
                        assert(lex_lt(s[j].0@, host@));
                    } else if j == i {
                        assert(lex_lt(host@, s[j].0@));
                    } else {
                        assert(lex_lt(s[i as int].0@, s[j].0@));
                        lemma_lex_lt_trans(host@, s[i as int].0@, s[j].0@);
                    }
                }
            }
            self.servers.insert(i, (host, entry));
            proof {
                let t = self.servers@;
                assert(t =~= s.take(i as int) + seq![(t[i as int].0, t[i as int].1)] + s.skip(i as int));
                lemma_insert_wf(s, t, i as int, host@);
                lemma_insert_map(s, t, i as int, host@, entry_v);
                assert(self.as_map() =~= old(self).as_map().insert(host@, entry_v));
            }
        }
    }
}

proof fn lemma_replace_map(
    s: Seq<(String, ServerEntry)>,
    t: Seq<(String, ServerEntry)>,
    i: int,
    h: Seq<char>,
    e: EntryView,
)
    requires
        0 <= i < s.len(),
        t.len() == s.len(),
        forall|j: int| 0 <= j < s.len() && j != i ==> t[j] == s[j],
        s[i].0@ == h,
        t[i].0@ == h,
        t[i].1@ == e,
        forall|j: int| 0 <= j < s.len() && j != i ==> (#[trigger] s[j].0@) != h,
    ensures
        Map::new(
            |k: Seq<char>| lookup(t, k) is Some,
            |k: Seq<char>| lookup(t, k)->Some_0,
        ) =~= Map::new(
            |k: Seq<char>| lookup(s, k) is Some,
            |k: Seq<char>| lookup(s, k)->Some_0,
        ).insert(h, e),
{
    assert(s =~= s.take(i) + seq![s[i]] + s.skip(i + 1));
    assert(t =~= s.take(i) + seq![t[i]] + s.skip(i + 1));
    assert(forall|j: int|
        0 <= j < s.skip(i + 1).len() ==> #[trigger] s.skip(i + 1)[j].0@ == s[i + 1 + j].0@);
    assert(forall|j: int| 0 <= j < s.take(i).len() ==> #[trigger] s.take(i)[j].0@ == s[j].0@);
    assert forall|k: Seq<char>| true implies (lookup(t, k) == (if k == h {
        Option::Some(e)
    } else {
        lookup(s, k)
    })) by {
        let single_t = seq![t[i]];
        let single_s = seq![s[i]];
        lemma_lookup_concat(s.take(i) + single_t, s.skip(i + 1), k);
        lemma_lookup_concat(s.take(i), single_t, k);
        lemma_lookup_concat(s.take(i) + single_s, s.skip(i + 1), k);
        lemma_lookup_concat(s.take(i), single_s, k);
        assert(single_t.drop_last() =~= Seq::<(String, ServerEntry)>::empty());
        assert(single_s.drop_last() =~= Seq::<(String, ServerEntry)>::empty());
        assert(lookup(single_t.drop_last(), k) is None);
        assert(lookup(single_s.drop_last(), k) is None);
        assert(lookup(single_t, k) == (if t[i].0@ == k {
            Option::Some(t[i].1@)
        } else {
            Option::<EntryView>::None
        }));
        assert(lookup(single_s, k) == (if s[i].0@ == k {
            Option::Some(s[i].1@)
        } else {
            Option::<EntryView>::None
        }));
        if k == h {
            lemma_lookup_absent(s.skip(i + 1), k);
        }
    }
}

proof fn lemma_insert_wf(
    s: Seq<(String, ServerEntry)>,
    t: Seq<(String, ServerEntry)>,
    i: int,
    h: Seq<char>,
)
    requires
        0 <= i <= s.len(),
        t.len() == s.len() + 1,
        forall|j: int| 0 <= j < i ==> t[j] == s[j],
        forall|j: int| i < j < t.len() ==> t[j] == s[j - 1],
        t[i].0@ == h,
        forall|p: int, q: int|
            0 <= p < q < s.len() ==> lex_lt(#[trigger] s[p].0@, #[trigger] s[q].0@),
        forall|j: int| 0 <= j < i ==> lex_lt(#[trigger] s[j].0@, h),
        i < s.len() ==> lex_lt(h, s[i].0@),
    ensures
        forall|p: int, q: int|
            0 <= p < q < t.len() ==> lex_lt(#[trigger] t[p].0@, #[trigger] t[q].0@),
{
    assert forall|p: int, q: int|
        0 <= p < q < t.len() implies lex_lt(#[trigger] t[p].0@, #[trigger] t[q].0@) by {
        if p < i && q == i {
        } else if p == i && q > i {
            if q - 1 > i {
                lemma_lex_lt_trans(h, s[i].0@, s[q - 1].0@);
            }
        } else if p < i && q > i {
            if q - 1 == i {
                if i < s.len() {
                    lemma_lex_lt_trans(s[p].0@, h, s[i].0@);
                }
                assert(lex_lt(s[p].0@, h));
            } else {
                assert(lex_lt(s[p].0@, s[q - 1].0@));
            }
        }
    }
}

proof fn lemma_insert_map(
    s: Seq<(String, ServerEntry)>,
    t: Seq<(String, ServerEntry)>,
    i: int,
    h: Seq<char>,
    e: EntryView,
)
    requires
        0 <= i <= s.len(),
        t.len() == s.len() + 1,
        forall|j: int| 0 <= j < i ==> t[j] == s[j],
        forall|j: int| i < j < t.len() ==> t[j] == s[j - 1],
        t[i].0@ == h,
        t[i].1@ == e,
        forall|j: int| 0 <= j < s.len() ==> (#[trigger] s[j].0@) != h,
    ensures
        Map::new(
            |k: Seq<char>| lookup(t, k) is Some,
            |k: Seq<char>| lookup(t, k)->Some_0,
        ) =~= Map::new(
            |k: Seq<char>| lookup(s, k) is Some,
            |k: Seq<char>| lookup(s, k)->Some_0,
        ).insert(h, e),
{
    assert(s =~= s.take(i) + s.skip(i));
    assert(t =~= s.take(i) + seq![t[i]] + s.skip(i));
    assert(forall|j: int| 0 <= j < s.skip(i).len() ==> #[trigger] s.skip(i)[j].0@ == s[i + j].0@);
    assert(forall|j: int| 0 <= j < s.take(i).len() ==> #[trigger] s.take(i)[j].0@ == s[j].0@);
    assert forall|k: Seq<char>| true implies (lookup(t, k) == (if k == h {
        Option::Some(e)
    } else {
        lookup(s, k)
    })) by {
        let single = seq![t[i]];
        lemma_lookup_concat(s.take(i) + single, s.skip(i), k);
        lemma_lookup_concat(s.take(i), single, k);
        lemma_lookup_concat(s.take(i), s.skip(i), k);
        assert(single.drop_last() =~= Seq::<(String, ServerEntry)>::empty());
        assert(lookup(single.drop_last(), k) is None);
        assert(lookup(single, k) == (if t[i].0@ == k {
            Option::Some(t[i].1@)
        } else {
            Option::<EntryView>::None
        }));
        if k == h {
            lemma_lookup_absent(s.skip(i), k);
        }
    }
}

/// The inventory a sequence of probe results assembles into: each result
/// binds its host, a later result for the same host winning.
pub open spec fn probes_map(ps: Seq<(String, i64, Vec<DataFolder>)>) -> Map<Seq<char>, EntryView>
    decreases ps.len(),
{
    if ps.len() == 0 {
        Map::empty()
    } else {
        probes_map(ps.drop_last()).insert(
            ps.last().0@,
            EntryView {
                last_updated: ps.last().1 as int,
                data_folders: folders_view(ps.last().2@),
            },
        )
    }
}

impl ServersCache {
    /// Assembles probe results, in probe order, into a fresh inventory:
    /// the result holds exactly the probed hosts, each bound to its
    /// latest probe, keys in sorted order.
    pub fn from_probes(probes: Vec<(String, i64, Vec<DataFolder>)>) -> (r: ServersCache)
        ensures
            r.wf(),
            r.as_map() == probes_map(probes@),
    {
        let ghost orig = probes@;
        let total: usize = probes.len();
        let mut rest = probes;
        let mut cache = empty_cache();
        proof {
            assert(orig.take(0) =~= Seq::<(String, i64, Vec<DataFolder>)>::empty());
            assert(rest@ =~= orig.skip(0));
        }
        let mut done: usize = 0;
        while rest.len() > 0
            invariant
                done <= total,
                total == orig.len(),
                rest@ == orig.skip(done as int),
                cache.wf(),
                cache.as_map() == probes_map(orig.take(done as int)),
            decreases rest@.len(),
        {
            let p = rest.remove(0);
            proof {
                assert(p == orig[done as int]);
                assert(rest@ =~= orig.skip(done as int + 1));
                assert(orig.take(done as int + 1).drop_last() =~= orig.take(done as int));
                assert(orig.take(done as int + 1).last() == orig[done as int]);
            }
            cache.insert_probe(p.0, p.1, p.2);
            done = done + 1;
        }
        proof {
            assert(orig.take(done as int) =~= orig);
        }
        cache
    }
}

/// Where the snapshot lives under the configured storage root.
pub fn servers_cache_path(cache_dir: &str) -> (r: String)
    ensures
        r@ == cache_dir@ + "/servers.toml"@,
{
    let mut out: Vec<char> = Vec::new();
    crate::text::push_str_chars(&mut out, cache_dir);
    crate::text::push_str_chars(&mut out, "/servers.toml");
    proof {
        assert(out@ =~= cache_dir@ + "/servers.toml"@);
    }
    crate::text::chars_to_string(&out)
}

/// An inventory with no hosts at all.
pub fn empty_cache() -> (r: ServersCache)
    ensures
        r.wf(),
        r.servers@.len() == 0,
        r.as_map() =~= Map::<Seq<char>, EntryView>::empty(),
{
    let r = ServersCache { servers: Vec::new() };
    proof {
        assert forall|k: Seq<char>| !(lookup(r.servers@, k) is Some) by {
        }
    }
    r
}

} // verus!
