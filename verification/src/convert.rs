//! Between the two forms: the table of all locales from their `.ftl`
//! files, and the messages of one locale from the table.

use vstd::prelude::*;

use crate::csv_io::{cell, CsvTable};
use crate::ftl::{is_valid_ftl_id, render_ftl, render_spec, valid_ftl_id, Messages, ParsedFtl};
use crate::sorted_map::SortedMap;
use crate::text::{
    lemma_lt_irreflexive, lemma_lt_transitive, lemma_take_push_contains, seq_lt, sort_strings,
    sorted_asc, str_lt, string_views,
};

verus! {

/// The maps of every file are well formed.
pub open spec fn files_wf(files: Seq<(String, ParsedFtl)>) -> bool {
    forall|i: int|
        0 <= i < files.len() ==> (#[trigger] files[i]).1.messages.wf() && files[i].1.contexts.wf()
}

/// The locale names, in the order of the files.
pub open spec fn file_locales(files: Seq<(String, ParsedFtl)>) -> Seq<Seq<char>> {
    files.map_values(|f: (String, ParsedFtl)| f.0@)
}

/// A context of locale `loc` for key `k` replaces the one in `ctxs`, which
/// came from locale `owners[k]`: there is none yet, or `loc` comes first in
/// ascending order of names.
pub open spec fn context_wins(
    ctxs: Map<Seq<char>, Seq<char>>,
    owners: Map<Seq<char>, Seq<char>>,
    loc: Seq<char>,
    src: Map<Seq<char>, Seq<char>>,
    k: Seq<char>,
) -> bool {
    src.contains_key(k) && (!ctxs.contains_key(k) || seq_lt(loc, owners[k]))
}

/// The contexts `src` of locale `loc` merged into `ctxs`, whose keys came
/// from the locales `owners`: the merged contexts and their locales.
pub open spec fn merge_step(
    ctxs: Map<Seq<char>, Seq<char>>,
    owners: Map<Seq<char>, Seq<char>>,
    loc: Seq<char>,
    src: Map<Seq<char>, Seq<char>>,
) -> (Map<Seq<char>, Seq<char>>, Map<Seq<char>, Seq<char>>) {
    (
        Map::new(
            |k: Seq<char>| ctxs.contains_key(k) || src.contains_key(k),
            |k: Seq<char>|
                if context_wins(ctxs, owners, loc, src, k) {
                    src[k]
                } else {
                    ctxs[k]
                },
        ),
        Map::new(
            |k: Seq<char>| ctxs.contains_key(k) || src.contains_key(k),
            |k: Seq<char>|
                if context_wins(ctxs, owners, loc, src, k) {
                    loc
                } else {
                    owners[k]
                },
        ),
    )
}

/// The contexts of the first `n` files, and the locale each came from: a
/// key's context is that of the first locale in ascending order of names
/// that gives one (of two files of one locale, the earlier one's).
pub open spec fn merged_contexts_owned(files: Seq<(String, ParsedFtl)>, n: int) -> (
    Map<Seq<char>, Seq<char>>,
    Map<Seq<char>, Seq<char>>,
)
    decreases n,
{
    if n <= 0 {
        (Map::empty(), Map::empty())
    } else {
        let p = merged_contexts_owned(files, n - 1);
        merge_step(p.0, p.1, files[n - 1].0@, files[n - 1].1.contexts@)
    }
}

/// The contexts of the first `n` files (see `merged_contexts_owned`).
pub open spec fn merged_contexts(files: Seq<(String, ParsedFtl)>, n: int) -> Map<
    Seq<char>,
    Seq<char>,
> {
    merged_contexts_owned(files, n).0
}

proof fn lemma_owned_dom(files: Seq<(String, ParsedFtl)>, n: int)
    ensures
        merged_contexts_owned(files, n).0.dom() == merged_contexts_owned(files, n).1.dom(),
    decreases n,
{
    if n > 0 {
        lemma_owned_dom(files, n - 1);
        let p = merged_contexts_owned(files, n - 1);
        let q = merge_step(p.0, p.1, files[n - 1].0@, files[n - 1].1.contexts@);
        assert(q.0.dom() =~= q.1.dom());
    } else {
        assert(Map::<Seq<char>, Seq<char>>::empty().dom() =~= Map::<Seq<char>, Seq<char>>::empty().dom());
    }
}

/// File `i` among the first `n` gives key `k` the context that wins: it has
/// one, and no file among the first `n` with one has a locale that comes
/// before it, nor the same locale and an earlier place.
pub open spec fn first_context_file(files: Seq<(String, ParsedFtl)>, n: int, k: Seq<char>, i: int) -> bool {
    &&& 0 <= i < n
    &&& files[i].1.contexts@.contains_key(k)
    &&& forall|j: int|
        0 <= j < n && #[trigger] files[j].1.contexts@.contains_key(k) ==> !seq_lt(files[j].0@, files[i].0@)
            && (files[j].0@ == files[i].0@ ==> i <= j)
}

proof fn lemma_first_context_upto(files: Seq<(String, ParsedFtl)>, n: int)
    requires
        0 <= n <= files.len(),
    ensures
        forall|k: Seq<char>|
            #[trigger] merged_contexts(files, n).contains_key(k) <==> exists|i: int|
                0 <= i < n && #[trigger] files[i].1.contexts@.contains_key(k),
        forall|k: Seq<char>|
            #[trigger] merged_contexts(files, n).contains_key(k) ==> exists|i: int|
                first_context_file(files, n, k, i) && merged_contexts(files, n)[k]
                    == files[i].1.contexts@[k] && merged_contexts_owned(files, n).1[k] == files[i].0@,
    decreases n,
{
    if n > 0 {
        lemma_first_context_upto(files, n - 1);
        lemma_owned_dom(files, n - 1);
        let p = merged_contexts_owned(files, n - 1);
        let loc = files[n - 1].0@;
        let src = files[n - 1].1.contexts@;
        let cur = merged_contexts(files, n);
        assert forall|k: Seq<char>| cur.contains_key(k) <==> exists|i: int|
            0 <= i < n && #[trigger] files[i].1.contexts@.contains_key(k) by {
            if cur.contains_key(k) {
                if src.contains_key(k) {
                    assert(files[n - 1].1.contexts@.contains_key(k));
                } else {
                    assert(merged_contexts(files, n - 1).contains_key(k));
                    let i = choose|i: int| 0 <= i < n - 1 && #[trigger] files[i].1.contexts@.contains_key(k);
                    assert(files[i].1.contexts@.contains_key(k));
                }
            }
            if exists|i: int| 0 <= i < n && #[trigger] files[i].1.contexts@.contains_key(k) {
                let i = choose|i: int| 0 <= i < n && #[trigger] files[i].1.contexts@.contains_key(k);
                if i < n - 1 {
                    assert(exists|i: int| 0 <= i < n - 1 && #[trigger] files[i].1.contexts@.contains_key(k));
                    assert(merged_contexts(files, n - 1).contains_key(k));
                }
            }
        }
        assert forall|k: Seq<char>| #[trigger] cur.contains_key(k) implies exists|i: int|
            first_context_file(files, n, k, i) && cur[k] == files[i].1.contexts@[k]
                && merged_contexts_owned(files, n).1[k] == files[i].0@ by {
            if context_wins(p.0, p.1, loc, src, k) {
                let i = n - 1;
                assert forall|j: int| 0 <= j < n && #[trigger] files[j].1.contexts@.contains_key(k)
                    implies !seq_lt(files[j].0@, files[i].0@) && (files[j].0@ == files[i].0@ ==> i <= j) by {
                    lemma_lt_irreflexive(loc);
                    if j < n - 1 {
                        assert(exists|i: int| 0 <= i < n - 1 && #[trigger] files[i].1.contexts@.contains_key(k));
                        assert(merged_contexts(files, n - 1).contains_key(k));
                        let w = choose|w: int|
                            first_context_file(files, n - 1, k, w) && p.0[k] == files[w].1.contexts@[k]
                                && p.1[k] == files[w].0@;
                        assert(seq_lt(loc, p.1[k]));
                        assert(!seq_lt(files[j].0@, files[w].0@));
                        if seq_lt(files[j].0@, loc) {
                            lemma_lt_transitive(files[j].0@, loc, p.1[k]);
                        }
                        if files[j].0@ == loc {
                            assert(seq_lt(files[j].0@, files[w].0@));
                        }
                    }
                }
                assert(first_context_file(files, n, k, i));
            } else {
                assert(merged_contexts(files, n - 1).contains_key(k));
                let w = choose|w: int|
                    first_context_file(files, n - 1, k, w) && p.0[k] == files[w].1.contexts@[k]
                        && p.1[k] == files[w].0@;
                assert forall|j: int| 0 <= j < n && #[trigger] files[j].1.contexts@.contains_key(k)
                    implies !seq_lt(files[j].0@, files[w].0@) && (files[j].0@ == files[w].0@ ==> w <= j) by {
                    if j == n - 1 {
                        assert(!seq_lt(loc, p.1[k]));
                    }
                }
                assert(first_context_file(files, n, k, w));
            }
        }
    } else {
        assert(merged_contexts(files, 0) =~= Map::<Seq<char>, Seq<char>>::empty());
    }
}

/// A key has a context when one of the files gives it one, and its context
/// is that of the first locale in ascending order of names that gives one
/// (of two files of one locale, the earlier one's), whatever the order of
/// the files.
pub proof fn lemma_context_of_first_locale(files: Seq<(String, ParsedFtl)>)
    ensures
        forall|k: Seq<char>|
            merged_contexts(files, files.len() as int).contains_key(k) <==> exists|i: int|
                0 <= i < files.len() && #[trigger] files[i].1.contexts@.contains_key(k),
        forall|k: Seq<char>|
            #[trigger] merged_contexts(files, files.len() as int).contains_key(k) ==> exists|i: int|
                first_context_file(files, files.len() as int, k, i) && merged_contexts(
                    files,
                    files.len() as int,
                )[k] == files[i].1.contexts@[k],
{
    lemma_first_context_upto(files, files.len() as int);
}

/// The messages of each locale among the first `n` files; a later file of
/// the same locale wins.
pub open spec fn messages_by_locale(files: Seq<(String, ParsedFtl)>, n: int) -> Map<
    Seq<char>,
    Map<Seq<char>, Seq<char>>,
>
    decreases n,
{
    if n <= 0 {
        Map::empty()
    } else {
        messages_by_locale(files, n - 1).insert(files[n - 1].0@, files[n - 1].1.messages@)
    }
}

/// The keys of the messages of the first `n` files.
pub open spec fn message_keys(files: Seq<(String, ParsedFtl)>, n: int) -> Set<Seq<char>>
    decreases n,
{
    if n <= 0 {
        Set::empty()
    } else {
        message_keys(files, n - 1).union(files[n - 1].1.messages@.dom())
    }
}

/// The translations of `key`: its message in each locale that has one.
pub open spec fn key_translations(
    by_locale: Map<Seq<char>, Map<Seq<char>, Seq<char>>>,
    key: Seq<char>,
) -> Map<Seq<char>, Seq<char>> {
    Map::new(
        |loc: Seq<char>| by_locale.contains_key(loc) && by_locale[loc].contains_key(key),
        |loc: Seq<char>| by_locale[loc][key],
    )
}

/// The translations of all the files: each key of any file, with its
/// message in each locale that has one.
pub open spec fn merged_translations(files: Seq<(String, ParsedFtl)>) -> Map<
    Seq<char>,
    Map<Seq<char>, Seq<char>>,
> {
    Map::new(
        |k: Seq<char>| message_keys(files, files.len() as int).contains(k),
        |k: Seq<char>| key_translations(messages_by_locale(files, files.len() as int), k),
    )
}

/// Merges the contexts `src` of locale `loc` into `contexts`, whose keys
/// came from the locales `owners` (see `merge_step`).
fn merge_contexts(
    contexts: &mut SortedMap<String>,
    owners: &mut SortedMap<String>,
    src: &SortedMap<String>,
    loc: &String,
)
    requires
        old(contexts).wf(),
        old(owners).wf(),
        old(owners)@.dom() == old(contexts)@.dom(),
        src.wf(),
    ensures
        final(contexts).wf(),
        final(owners).wf(),
        (final(contexts)@, final(owners)@) == merge_step(old(contexts)@, old(owners)@, loc@, src@),
{
    let ghost pc = contexts@;
    let ghost po = owners@;
    let n = src.len();
    let mut j: usize = 0;
    proof {
        assert(src.key_seq().take(0) =~= Seq::<Seq<char>>::empty());
        assert(src.view_prefix(0) =~= Map::<Seq<char>, Seq<char>>::empty());
        assert(merge_step(pc, po, loc@, src.view_prefix(0)).0 =~= pc);
        assert(merge_step(pc, po, loc@, src.view_prefix(0)).1 =~= po);
    }
    while j < n
        invariant
            src.wf(),
            contexts.wf(),
            owners.wf(),
            owners@.dom() == contexts@.dom(),
            po.dom() == pc.dom(),
            n == src.key_seq().len(),
            j <= n,
            (contexts@, owners@) == merge_step(pc, po, loc@, src.view_prefix(j as int)),
        decreases n - j,
    {
        let k = src.key_at(j);
        let v = src.value_at(j);
        proof {
            src.lemma_view_prefix(j as int);
        }
        let ghost a = src.view_prefix(j as int);
        let ghost b = a.insert(k@, v@);
        let replace = match owners.get(k.as_str()) {
            None => true,
            Some(o) => str_lt(loc.as_str(), o.as_str()),
        };
        proof {
            if owners@.contains_key(k@) {
                assert(contexts@.contains_key(k@));
                if !a.contains_key(k@) {
                    assert(pc.contains_key(k@));
                    assert(owners@[k@] == po[k@]);
                }
            } else {
                assert(!pc.contains_key(k@));
            }
            assert(replace == context_wins(pc, po, loc@, b, k@));
        }
        if replace {
            contexts.insert(k.clone(), v.clone());
            owners.insert(k.clone(), loc.clone());
        }
        assert(contexts@ =~= merge_step(pc, po, loc@, b).0);
        assert(owners@ =~= merge_step(pc, po, loc@, b).1);
        j += 1;
    }
    proof {
        src.lemma_view();
        assert(src.key_seq().take(n as int) =~= src.key_seq());
        assert(src.view_prefix(n as int) =~= src@);
    }
}

/// Adds the keys of `src` to `keys`.
fn add_keys(keys: &mut SortedMap<bool>, src: &SortedMap<String>)
    requires
        old(keys).wf(),
        src.wf(),
    ensures
        final(keys).wf(),
        final(keys)@.dom() == old(keys)@.dom().union(src@.dom()),
{
    let ghost prev = keys@.dom();
    let n = src.len();
    let mut j: usize = 0;
    proof {
        src.lemma_view();
    }
    while j < n
        invariant
            src.wf(),
            keys.wf(),
            n == src.key_seq().len(),
            j <= n,
            keys@.dom() == prev.union(src.key_seq().take(j as int).to_set()),
        decreases n - j,
    {
        let k = src.key_at(j);
        keys.insert(k.clone(), true);
        assert(src.key_seq().take(j + 1) =~= src.key_seq().take(j as int).push(k@));
        assert(src.key_seq().take(j + 1).to_set() =~= src.key_seq().take(j as int).to_set().insert(k@)) by {
            assert forall|x: Seq<char>| src.key_seq().take(j + 1).contains(x) implies src.key_seq().take(j as int).contains(x) || x == k@ by {
                let i = choose|i: int| 0 <= i < src.key_seq().take(j + 1).len() && #[trigger] src.key_seq().take(j + 1)[i] == x;
                if i < j {
                    assert(src.key_seq().take(j as int)[i] == x);
                }
            }
            assert forall|x: Seq<char>| src.key_seq().take(j as int).contains(x) implies src.key_seq().take(j + 1).contains(x) by {
                let i = choose|i: int| 0 <= i < src.key_seq().take(j as int).len() && #[trigger] src.key_seq().take(j as int)[i] == x;
                assert(src.key_seq().take(j + 1)[i] == x);
            }
            assert(src.key_seq().take(j + 1)[j as int] == k@);
        }
        assert(keys@.dom() =~= prev.union(src.key_seq().take(j + 1).to_set()));
        j += 1;
    }
    proof {
        src.lemma_view();
        assert(src.key_seq().take(n as int) =~= src.key_seq());
        assert(keys@.dom() =~= prev.union(src@.dom()));
    }
}

/// The translations of `key` into the locales `locs`, taken from the file
/// that `idx` gives for each locale.
fn key_row_map(
    files: &Vec<(String, ParsedFtl)>,
    idx: &SortedMap<usize>,
    locs: &Vec<String>,
    key: &str,
    Ghost(by): Ghost<Map<Seq<char>, Map<Seq<char>, Seq<char>>>>,
) -> (row: SortedMap<String>)
    requires
        files_wf(files@),
        idx.wf(),
        idx@.dom() == by.dom(),
        forall|loc: Seq<char>| #[trigger]
            idx@.contains_key(loc) ==> idx@[loc] < files@.len() && by[loc]
                == files@[idx@[loc] as int].1.messages@,
    ensures
        row.wf(),
        row@ == Map::new(
            |l: Seq<char>| string_views(locs@).contains(l) && by.contains_key(l) && by[l].contains_key(key@),
            |l: Seq<char>| by[l][key@],
        ),
{
    let ghost ls = string_views(locs@);
    let mut row: SortedMap<String> = SortedMap::new();
    let mut m: usize = 0;
    assert(row@ =~= Map::new(
        |l: Seq<char>| ls.take(0).contains(l) && by.contains_key(l) && by[l].contains_key(key@),
        |l: Seq<char>| by[l][key@],
    ));
    while m < locs.len()
        invariant
            files_wf(files@),
            idx.wf(),
            idx@.dom() == by.dom(),
            forall|loc: Seq<char>| #[trigger]
                idx@.contains_key(loc) ==> idx@[loc] < files@.len() && by[loc]
                    == files@[idx@[loc] as int].1.messages@,
            ls == string_views(locs@),
            m <= locs@.len(),
            row.wf(),
            row@ == Map::new(
                |l: Seq<char>| ls.take(m as int).contains(l) && by.contains_key(l) && by[l].contains_key(key@),
                |l: Seq<char>| by[l][key@],
            ),
        decreases locs@.len() - m,
    {
        let loc = &locs[m];
        let ghost before = row@;
        assert(ls[m as int] == loc@);
        proof {
            lemma_take_push_contains(ls, m as int);
        }
        match idx.get(loc.as_str()) {
            Some(fi) => {
                let f = &files[*fi];
                assert(f.1.messages.wf());
                match f.1.messages.get(key) {
                    Some(v) => {
                        row.insert(loc.clone(), v.clone());
                    },
                    None => {},
                }
            },
            None => {},
        }
        assert(row@ =~= Map::new(
            |l: Seq<char>| ls.take(m + 1).contains(l) && by.contains_key(l) && by[l].contains_key(key@),
            |l: Seq<char>| by[l][key@],
        ));
        m += 1;
    }
    assert(ls.take(locs@.len() as int) =~= ls);
    row
}

/// The translation table of all locales, from their parsed `.ftl` files,
/// given in the order in which they were read.
///
/// The locales are sorted; each key of any file gets the message of each
/// locale that has it (a later file of the same locale wins); a key's
/// context is that of the first locale in ascending order of names that
/// gives one (see `lemma_context_of_first_locale`); the keys come in
/// ascending order.
pub fn table_from_locales(files: &Vec<(String, ParsedFtl)>) -> (t: CsvTable)
    requires
        files_wf(files@),
    ensures
        t.wf(),
        sorted_asc(string_views(t.locales@)),
        string_views(t.locales@).to_multiset() == file_locales(files@).to_multiset(),
        t.translations@ == merged_translations(files@),
        t.contexts@ == merged_contexts(files@, files@.len() as int),
        string_views(t.keys@) == t.translations.key_seq(),
{
    let ghost fs = files@;
    let mut contexts: SortedMap<String> = SortedMap::new();
    let mut owners: SortedMap<String> = SortedMap::new();
    let mut keys_seen: SortedMap<bool> = SortedMap::new();
    let mut idx: SortedMap<usize> = SortedMap::new();
    let mut names: Vec<String> = Vec::new();
    let mut i: usize = 0;
    assert(file_locales(fs).take(0) =~= string_views(names@));
    assert(keys_seen@.dom() =~= message_keys(fs, 0));
    assert(merged_contexts_owned(fs, 0) == (contexts@, owners@));
    while i < files.len()
        invariant
            fs == files@,
            files_wf(fs),
            i <= fs.len(),
            contexts.wf(),
            owners.wf(),
            keys_seen.wf(),
            idx.wf(),
            (contexts@, owners@) == merged_contexts_owned(fs, i as int),
            keys_seen@.dom() == message_keys(fs, i as int),
            idx@.dom() == messages_by_locale(fs, i as int).dom(),
            forall|loc: Seq<char>| #[trigger]
                idx@.contains_key(loc) ==> idx@[loc] < i && messages_by_locale(fs, i as int)[loc]
                    == fs[idx@[loc] as int].1.messages@,
            string_views(names@) == file_locales(fs).take(i as int),
            forall|loc: Seq<char>| #[trigger] idx@.contains_key(loc) <==> string_views(names@).contains(loc),
        decreases fs.len() - i,
    {
        let f = &files[i];
        assert(f.1.messages.wf() && f.1.contexts.wf());
        proof {
            lemma_owned_dom(fs, i as int);
        }
        merge_contexts(&mut contexts, &mut owners, &f.1.contexts, &f.0);
        add_keys(&mut keys_seen, &f.1.messages);
        idx.insert(f.0.clone(), i);
        let ghost before = names@;
        let name = f.0.clone();
        names.push(name);
        assert(names@ =~= before.push(name));
        assert(string_views(names@) =~= string_views(before).push(f.0@));
        assert(file_locales(fs).take(i + 1) =~= file_locales(fs).take(i as int).push(f.0@));
        assert forall|loc: Seq<char>| #[trigger] idx@.contains_key(loc) <==> string_views(names@).contains(loc) by {
            if string_views(names@).contains(loc) && loc != f.0@ {
                let j = choose|j: int| 0 <= j < string_views(names@).len() && #[trigger] string_views(names@)[j] == loc;
                assert(string_views(before)[j] == loc);
            }
            if string_views(before).contains(loc) {
                let j = choose|j: int| 0 <= j < string_views(before).len() && #[trigger] string_views(before)[j] == loc;
                assert(string_views(names@)[j] == loc);
            }
            if loc == f.0@ {
                assert(string_views(names@)[i as int] == loc);
            }
        }
        i += 1;
    }
    let ghost by = messages_by_locale(fs, fs.len() as int);
    let locales = sort_strings(&names);
    proof {
        string_views(locales@).to_multiset_ensures();
        string_views(names@).to_multiset_ensures();
        assert(file_locales(fs).take(fs.len() as int) =~= file_locales(fs));
        assert forall|loc: Seq<char>| string_views(locales@).contains(loc) <==> #[trigger] by.contains_key(loc) by {
            assert(string_views(locales@).to_multiset().count(loc) == string_views(names@).to_multiset().count(loc));
            assert(idx@.contains_key(loc) <==> string_views(names@).contains(loc));
        }
    }
    // one row per key
    let mut translations: SortedMap<SortedMap<String>> = SortedMap::new();
    let n = keys_seen.len();
    let mut kk: usize = 0;
    proof {
        keys_seen.lemma_view();
    }
    assert(translations@ =~= Map::new(
        |k: Seq<char>| keys_seen.key_seq().take(0).contains(k),
        |k: Seq<char>| key_translations(by, k),
    ));
    while kk < n
        invariant
            fs == files@,
            files_wf(fs),
            by == messages_by_locale(fs, fs.len() as int),
            keys_seen.wf(),
            n == keys_seen.key_seq().len(),
            kk <= n,
            idx.wf(),
            idx@.dom() == by.dom(),
            forall|loc: Seq<char>| #[trigger]
                idx@.contains_key(loc) ==> idx@[loc] < fs.len() && by[loc]
                    == fs[idx@[loc] as int].1.messages@,
            forall|loc: Seq<char>| string_views(locales@).contains(loc) <==> #[trigger] by.contains_key(loc),
            translations.wf(),
            forall|j: int|
                0 <= j < translations.val_seq().len() ==> (#[trigger] translations.val_seq()[j]).wf(),
            translations@ == Map::new(
                |k: Seq<char>| keys_seen.key_seq().take(kk as int).contains(k),
                |k: Seq<char>| key_translations(by, k),
            ),
        decreases n - kk,
    {
        let key = keys_seen.key_at(kk);
        let row = key_row_map(files, &idx, &locales, key.as_str(), Ghost(by));
        assert(row@ =~= key_translations(by, key@));
        let ghost old_vals = translations.val_seq();
        translations.insert(key.clone(), row);
        assert forall|j: int| 0 <= j < translations.val_seq().len() implies (
        #[trigger] translations.val_seq()[j]).wf() by {
            if translations.val_seq()[j] != row {
                let q = choose|q: int| 0 <= q < old_vals.len() && old_vals[q] == translations.val_seq()[j];
                assert(old_vals[q].wf());
            }
        }
        let ghost ks = keys_seen.key_seq();
        assert(ks.take(kk + 1) =~= ks.take(kk as int).push(key@));
        assert forall|k: Seq<char>| #[trigger] ks.take(kk + 1).contains(k) == (ks.take(kk as int).contains(k) || k == key@) by {
            if ks.take(kk + 1).contains(k) {
                let q = choose|q: int| 0 <= q < ks.take(kk + 1).len() && #[trigger] ks.take(kk + 1)[q] == k;
                if q < kk {
                    assert(ks.take(kk as int)[q] == k);
                }
            }
            if ks.take(kk as int).contains(k) {
                let q = choose|q: int| 0 <= q < ks.take(kk as int).len() && #[trigger] ks.take(kk as int)[q] == k;
                assert(ks.take(kk + 1)[q] == k);
            }
            if k == key@ {
                assert(ks.take(kk + 1)[kk as int] == k);
            }
        }
        assert(translations@ =~= Map::new(
            |k: Seq<char>| keys_seen.key_seq().take(kk + 1).contains(k),
            |k: Seq<char>| key_translations(by, k),
        ));
        kk += 1;
    }
    proof {
        keys_seen.lemma_view();
        assert(keys_seen.key_seq().take(n as int) =~= keys_seen.key_seq());
        assert(translations@ =~= merged_translations(fs));
    }
    // the keys, in ascending order
    let mut keys: Vec<String> = Vec::new();
    let count = translations.len();
    let mut j: usize = 0;
    while j < count
        invariant
            translations.wf(),
            count == translations.key_seq().len(),
            j <= count,
            string_views(keys@) == translations.key_seq().take(j as int),
        decreases count - j,
    {
        let ghost before = keys@;
        let k = translations.key_at(j).clone();
        keys.push(k);
        assert(keys@ =~= before.push(k));
        assert(string_views(keys@) =~= string_views(before).push(k@));
        assert(translations.key_seq().take(j + 1) =~= translations.key_seq().take(j as int).push(k@));
        j += 1;
    }
    assert(translations.key_seq().take(count as int) =~= translations.key_seq());
    CsvTable { locales, keys, translations, contexts }
}

/// The messages of `locale` in a table: each key that is a valid
/// identifier and has a non-empty translation into `locale`.
pub open spec fn locale_messages_spec(t: CsvTable, locale: Seq<char>) -> Map<Seq<char>, Seq<char>> {
    Map::new(
        |k: Seq<char>|
            string_views(t.keys@).contains(k) && valid_ftl_id(k) && cell(t.translations@, k, locale).len() > 0,
        |k: Seq<char>| cell(t.translations@, k, locale),
    )
}

/// The messages that the `.ftl` file of `locale` gets from a table: the
/// non-empty translations into `locale` of the keys that are valid
/// identifiers.
pub fn locale_messages(table: &CsvTable, locale: &str) -> (m: Messages)
    requires
        table.wf(),
    ensures
        m.wf(),
        m@ == locale_messages_spec(*table, locale@),
{
    let ghost ks = string_views(table.keys@);
    let mut m: Messages = SortedMap::new();
    let mut i: usize = 0;
    assert(m@ =~= Map::new(
        |k: Seq<char>| ks.take(0).contains(k) && valid_ftl_id(k) && cell(table.translations@, k, locale@).len() > 0,
        |k: Seq<char>| cell(table.translations@, k, locale@),
    ));
    while i < table.keys.len()
        invariant
            table.wf(),
            ks == string_views(table.keys@),
            i <= ks.len(),
            m.wf(),
            m@ == Map::new(
                |k: Seq<char>| ks.take(i as int).contains(k) && valid_ftl_id(k) && cell(table.translations@, k, locale@).len() > 0,
                |k: Seq<char>| cell(table.translations@, k, locale@),
            ),
        decreases ks.len() - i,
    {
        let key = &table.keys[i];
        assert(ks[i as int] == key@);
        proof {
            lemma_take_push_contains(ks, i as int);
        }
        if is_valid_ftl_id(key.as_str()) {
            match table.translations.get(key.as_str()) {
                Some(row) => {
                    proof {
                        table.translations.lemma_view();
                        let q = table.translations.index_of(key@);
                        assert(table.translations.val_seq()[q].wf());
                    }
                    match row.get(locale) {
                        Some(v) => {
                            if !v.as_str().is_empty() {
                                m.insert(key.clone(), v.clone());
                            }
                        },
                        None => {},
                    }
                },
                None => {},
            }
        }
        assert(m@ =~= Map::new(
            |k: Seq<char>| ks.take(i + 1).contains(k) && valid_ftl_id(k) && cell(table.translations@, k, locale@).len() > 0,
            |k: Seq<char>| cell(table.translations@, k, locale@),
        ));
        i += 1;
    }
    assert(ks.take(ks.len() as int) =~= ks);
    m
}

/// The `.ftl` files that a table gives, one per locale in the order of
/// `table.locales`: the locale, its messages (see `locale_messages`) and
/// the text of its file (see `render_ftl`, with the contexts of the
/// table). `None` when the table has no locale column.
pub fn ftl_files(table: &CsvTable) -> (r: Option<Vec<(String, Messages, String)>>)
    requires
        table.wf(),
    ensures
        r is None <==> table.locales@.len() == 0,
        r matches Some(v) ==> v@.len() == table.locales@.len(),
        r matches Some(v) ==> forall|i: int|
            0 <= i < v@.len() ==> {
                &&& (#[trigger] v@[i]).0@ == table.locales@[i]@
                &&& v@[i].1.wf()
                &&& v@[i].1@ == locale_messages_spec(*table, table.locales@[i]@)
                &&& v@[i].2@ == render_spec(
                    v@[i].1.key_seq(),
                    string_views(v@[i].1.val_seq()),
                    table.contexts@,
                )
            },
{
    if table.locales.len() == 0 {
        return None;
    }
    let mut v: Vec<(String, Messages, String)> = Vec::new();
    let mut i: usize = 0;
    while i < table.locales.len()
        invariant
            table.wf(),
            i <= table.locales@.len(),
            v@.len() == i,
            forall|j: int|
                0 <= j < i ==> {
                    &&& (#[trigger] v@[j]).0@ == table.locales@[j]@
                    &&& v@[j].1.wf()
                    &&& v@[j].1@ == locale_messages_spec(*table, table.locales@[j]@)
                    &&& v@[j].2@ == render_spec(
                        v@[j].1.key_seq(),
                        string_views(v@[j].1.val_seq()),
                        table.contexts@,
                    )
                },
        decreases table.locales@.len() - i,
    {
        let loc = &table.locales[i];
        let messages = locale_messages(table, loc.as_str());
        let text = render_ftl(&messages, &table.contexts);
        v.push((loc.clone(), messages, text));
        i += 1;
    }
    Some(v)
}

} // verus!
