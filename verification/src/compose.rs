//! A plain model of a rendered service-configuration document: per
//! service, its name, its image and its environment entries, as the
//! values the core logic reads. Callers parse the remote tool's native
//! serialization into this form; the lookup logic itself is verified.

use vstd::prelude::*;

use crate::text::{
    chars_to_string, copy_range, find_char, find_char_in, lemma_find_char_spec, push_str_chars,
    starts_with, str_eq, str_starts_with, str_to_chars,
};

verus! {

/// The environment of one service: a mapping, a list of `KEY=value`
/// lines, or nothing usable.
pub enum EnvEntries {
    Absent,
    Pairs(Vec<(String, String)>),
    Lines(Vec<String>),
}

/// One service of a rendered configuration document.
pub struct ServiceConfig {
    pub name: String,
    pub image: Option<String>,
    pub env: EnvEntries,
}

/// A rendered configuration document: its services, in document order.
pub struct ComposeConfig {
    pub services: Vec<ServiceConfig>,
}

/// The first pair bound to `key`.
pub open spec fn env_lookup_pairs(ps: Seq<(String, String)>, key: Seq<char>) -> Option<Seq<char>>
    decreases ps.len(),
{
    if ps.len() == 0 {
        Option::None
    } else if ps[0].0@ == key {
        Option::Some(ps[0].1@)
    } else {
        env_lookup_pairs(ps.skip(1), key)
    }
}

/// What one `KEY=value` line binds: the text after the first `=`, when
/// the text before it is exactly `key`.
pub open spec fn line_value(l: Seq<char>, key: Seq<char>) -> Option<Seq<char>> {
    match find_char(l, '=') {
        Option::None => Option::None,
        Option::Some(i) => if l.take(i) == key {
            Option::Some(l.skip(i + 1))
        } else {
            Option::None
        },
    }
}

/// The first line that binds `key`.
pub open spec fn env_lookup_lines(ls: Seq<Seq<char>>, key: Seq<char>) -> Option<Seq<char>>
    decreases ls.len(),
{
    if ls.len() == 0 {
        Option::None
    } else {
        match line_value(ls[0], key) {
            Option::Some(v) => Option::Some(v),
            Option::None => env_lookup_lines(ls.skip(1), key),
        }
    }
}

/// The value an environment gives to `key`.
pub open spec fn env_value(env: EnvEntries, key: Seq<char>) -> Option<Seq<char>> {
    match env {
        EnvEntries::Absent => Option::None,
        EnvEntries::Pairs(ps) => env_lookup_pairs(ps@, key),
        EnvEntries::Lines(ls) => env_lookup_lines(ls.deep_view(), key),
    }
}

/// The first service of the given name.
pub open spec fn find_service(ss: Seq<ServiceConfig>, name: Seq<char>) -> Option<ServiceConfig>
    decreases ss.len(),
{
    if ss.len() == 0 {
        Option::None
    } else if ss[0].name@ == name {
        Option::Some(ss[0])
    } else {
        find_service(ss.skip(1), name)
    }
}

/// The value the named service's environment gives to `key`.
pub open spec fn get_env_spec(doc: ComposeConfig, service: Seq<char>, key: Seq<char>) -> Option<
    Seq<char>,
> {
    match find_service(doc.services@, service) {
        Option::None => Option::None,
        Option::Some(s) => env_value(s.env, key),
    }
}

proof fn lemma_find_service_at(ss: Seq<ServiceConfig>, name: Seq<char>, i: int)
    requires
        0 <= i < ss.len(),
        ss[i].name@ == name,
        forall|j: int| 0 <= j < i ==> #[trigger] ss[j].name@ != name,
    ensures
        find_service(ss, name) == Option::Some(ss[i]),
    decreases i,
{
    if i > 0 {
        lemma_find_service_at(ss.skip(1), name, i - 1);
    }
}

proof fn lemma_find_service_none(ss: Seq<ServiceConfig>, name: Seq<char>)
    requires
        forall|j: int| 0 <= j < ss.len() ==> #[trigger] ss[j].name@ != name,
    ensures
        find_service(ss, name) is None,
    decreases ss.len(),
{
    if ss.len() > 0 {
        lemma_find_service_none(ss.skip(1), name);
    }
}

proof fn lemma_lookup_pairs_at(ps: Seq<(String, String)>, key: Seq<char>, i: int)
    requires
        0 <= i < ps.len(),
        ps[i].0@ == key,
        forall|j: int| 0 <= j < i ==> #[trigger] ps[j].0@ != key,
    ensures
        env_lookup_pairs(ps, key) == Option::Some(ps[i].1@),
    decreases i,
{
    if i > 0 {
        lemma_lookup_pairs_at(ps.skip(1), key, i - 1);
    }
}

proof fn lemma_lookup_pairs_none(ps: Seq<(String, String)>, key: Seq<char>)
    requires
        forall|j: int| 0 <= j < ps.len() ==> #[trigger] ps[j].0@ != key,
    ensures
        env_lookup_pairs(ps, key) is None,
    decreases ps.len(),
{
    if ps.len() > 0 {
        lemma_lookup_pairs_none(ps.skip(1), key);
    }
}

proof fn lemma_lookup_lines_at(ls: Seq<Seq<char>>, key: Seq<char>, i: int, v: Seq<char>)
    requires
        0 <= i < ls.len(),
        line_value(ls[i], key) == Option::Some(v),
        forall|j: int| 0 <= j < i ==> line_value(#[trigger] ls[j], key) is None,
    ensures
        env_lookup_lines(ls, key) == Option::Some(v),
    decreases i,
{
    if i > 0 {
        lemma_lookup_lines_at(ls.skip(1), key, i - 1, v);
    }
}

proof fn lemma_lookup_lines_none(ls: Seq<Seq<char>>, key: Seq<char>)
    requires
        forall|j: int| 0 <= j < ls.len() ==> line_value(#[trigger] ls[j], key) is None,
    ensures
        env_lookup_lines(ls, key) is None,
    decreases ls.len(),
{
    if ls.len() > 0 {
        lemma_lookup_lines_none(ls.skip(1), key);
    }
}

/// What one environment line gives for `key`, when it is a `KEY=value`
/// binding of exactly that key.
fn line_value_exec(l: &String, key: &str) -> (r: Option<String>)
    ensures
        match r {
            Option::Some(v) => line_value(l@, key@) == Option::Some(v@),
            Option::None => line_value(l@, key@) is None,
        },
{
    let lv = str_to_chars(l.as_str());
    match find_char_in(&lv, '=') {
        Option::None => None,
        Option::Some(i) => {
            let n = lv.len();
            proof {
                lemma_find_char_spec(lv@, '=');
            }
            assert(i < n);
            let left = copy_range(&lv, 0, i);
            let kv = str_to_chars(key);
            if crate::text::chars_eq(&left, &kv) {
                proof {
                    assert(l@.take(i as int) =~= left@);
                }
                let right = copy_range(&lv, i + 1, n);
                proof {
                    assert(l@.skip(i + 1) =~= right@);
                }
                Some(chars_to_string(&right))
            } else {
                proof {
                    assert(l@.take(i as int) =~= left@);
                }
                None
            }
        },
    }
}

/// Reads one environment key of one service out of a rendered
/// configuration document: the caller-supplied value wins in a mapping,
/// the first matching `KEY=value` line wins in a list.
pub fn get_env(doc: &ComposeConfig, service: &str, key: &str) -> (r: Option<String>)
    ensures
        match r {
            Option::Some(v) => get_env_spec(*doc, service@, key@) == Option::Some(v@),
            Option::None => get_env_spec(*doc, service@, key@) is None,
        },
{
    let mut i: usize = 0;
    while i < doc.services.len()
        invariant
            i <= doc.services@.len(),
            forall|j: int| 0 <= j < i ==> #[trigger] doc.services@[j].name@ != service@,
        decreases doc.services@.len() - i,
    {
        if str_eq(doc.services[i].name.as_str(), service) {
            proof {
                lemma_find_service_at(doc.services@, service@, i as int);
            }
            let svc = &doc.services[i];
            match &svc.env {
                EnvEntries::Absent => {
                    return None;
                },
                EnvEntries::Pairs(ps) => {
                    let mut k: usize = 0;
                    while k < ps.len()
                        invariant
                            k <= ps@.len(),
                            i < doc.services@.len(),
                            find_service(doc.services@, service@) == Option::Some(
                                doc.services@[i as int],
                            ),
                            (doc.services@[i as int].env matches EnvEntries::Pairs(p) && p@
                                == ps@),
                            forall|j: int| 0 <= j < k ==> #[trigger] ps@[j].0@ != key@,
                        decreases ps@.len() - k,
                    {
                        if str_eq(ps[k].0.as_str(), key) {
                            proof {
                                lemma_lookup_pairs_at(ps@, key@, k as int);
                            }
                            return Some(ps[k].1.clone());
                        }
                        k = k + 1;
                    }
                    proof {
                        lemma_lookup_pairs_none(ps@, key@);
                    }
                    return None;
                },
                EnvEntries::Lines(ls) => {
                    let mut k: usize = 0;
                    while k < ls.len()
                        invariant
                            k <= ls@.len(),
                            i < doc.services@.len(),
                            find_service(doc.services@, service@) == Option::Some(
                                doc.services@[i as int],
                            ),
                            (doc.services@[i as int].env matches EnvEntries::Lines(p) && p@
                                == ls@),
                            forall|j: int|
                                0 <= j < k ==> line_value(#[trigger] ls.deep_view()[j], key@) is None,
                        decreases ls@.len() - k,
                    {
                        match line_value_exec(&ls[k], key) {
                            Option::Some(v) => {
                                proof {
                                    lemma_lookup_lines_at(ls.deep_view(), key@, k as int, v@);
                                }
                                return Some(v);
                            },
                            Option::None => {
                            },
                        }
                        k = k + 1;
                    }
                    proof {
                        lemma_lookup_lines_none(ls.deep_view(), key@);
                    }
                    return None;
                },
            }
        }
        i = i + 1;
    }
    proof {
        lemma_find_service_none(doc.services@, service@);
    }
    None
}

/// Whether some service's image marks a semantic.works application root.
pub open spec fn has_marker(ss: Seq<ServiceConfig>) -> bool {
    exists|i: int|
        0 <= i < ss.len() && (#[trigger] ss[i].image matches Option::Some(img) && starts_with(
            img@,
            "semtech/mu-identifier"@,
        ))
}

/// Whether a rendered configuration document belongs to a semantic.works
/// application: some service's image name opens with the identifier
/// image's name.
pub fn has_semantic_works_marker(doc: &ComposeConfig) -> (r: bool)
    ensures
        r == has_marker(doc.services@),
{
    let mut i: usize = 0;
    while i < doc.services.len()
        invariant
            i <= doc.services@.len(),
            forall|j: int|
                0 <= j < i ==> !(#[trigger] doc.services@[j].image matches Option::Some(img)
                    && starts_with(img@, "semtech/mu-identifier"@)),
        decreases doc.services@.len() - i,
    {
        match &doc.services[i].image {
            Option::Some(img) => {
                if str_starts_with(img.as_str(), "semtech/mu-identifier") {
                    assert(doc.services@[i as int].image matches Option::Some(im) && starts_with(
                        im@,
                        "semtech/mu-identifier"@,
                    ));
                    return true;
                }
            },
            Option::None => {
            },
        }
        i = i + 1;
    }
    false
}

/// The public address an application's hosted URL answer names.
pub fn hosted_url_of(url: &str) -> (r: String)
    ensures
        r@ == "https://"@ + url@,
{
    let mut out: Vec<char> = Vec::new();
    push_str_chars(&mut out, "https://");
    push_str_chars(&mut out, url);
    proof {
        assert(out@ =~= "https://"@ + url@);
    }
    chars_to_string(&out)
}

} // verus!
