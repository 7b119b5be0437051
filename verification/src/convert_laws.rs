//! Writing the `.ftl` files of a table and building the table from them
//! again.

use vstd::prelude::*;

use crate::convert::{
    key_translations, locale_messages_spec, merged_contexts, merged_translations,
    message_keys, messages_by_locale,
};
use crate::csv_io::{cell, CsvTable};
use crate::ftl::{parse_ftl, render_spec, valid_ftl_id, Messages, ParsedFtl};
use crate::ftl_laws::{context_norm, contexts_read_back, lemma_render_parse_roundtrip, plain_value};
use crate::text::{lemma_take_push_contains, string_views};

verus! {

/// `files` are the `.ftl` files of the locales of `t`, in the order of
/// `t.locales`, each read back from the text that `render_ftl` gives for
/// `msgs[i]`, the messages of locale `i`, with the contexts of `t`.
pub open spec fn ftl_files_of(t: CsvTable, msgs: Seq<Messages>, files: Seq<(String, ParsedFtl)>) -> bool {
    let locs = string_views(t.locales@);
    &&& msgs.len() == locs.len()
    &&& files.len() == locs.len()
    &&& forall|i: int|
        0 <= i < msgs.len() ==> (#[trigger] msgs[i]).wf() && msgs[i]@ == locale_messages_spec(
            t,
            locs[i],
        )
    &&& forall|i: int|
        0 <= i < files.len() ==> {
            &&& (#[trigger] files[i]).0@ == locs[i]
            &&& files[i].1.messages.wf()
            &&& files[i].1.contexts.wf()
            &&& (files[i].1.messages@, files[i].1.contexts@) == parse_ftl(
                render_spec(msgs[i].key_seq(), string_views(msgs[i].val_seq()), t.contexts@),
            )
        }
}

/// The translations of `t` that its `.ftl` files carry: each key of `t`
/// that is a valid identifier and has a non-empty translation, with its
/// non-empty translations.
pub open spec fn kept_translations(t: CsvTable) -> Map<Seq<char>, Map<Seq<char>, Seq<char>>> {
    let locs = string_views(t.locales@);
    Map::new(
        |k: Seq<char>|
            string_views(t.keys@).contains(k) && valid_ftl_id(k) && exists|l: Seq<char>|
                #[trigger] locs.contains(l) && cell(t.translations@, k, l).len() > 0,
        |k: Seq<char>|
            Map::new(
                |l: Seq<char>| locs.contains(l) && cell(t.translations@, k, l).len() > 0,
                |l: Seq<char>| cell(t.translations@, k, l),
            ),
    )
}

/// The contexts of `t` that its `.ftl` files carry: the normalized context
/// of each kept key, where that is not empty.
pub open spec fn kept_contexts(t: CsvTable) -> Map<Seq<char>, Seq<char>> {
    Map::new(
        |k: Seq<char>|
            kept_translations(t).contains_key(k) && t.contexts@.contains_key(k) && context_norm(
                t.contexts@[k],
            ).len() > 0,
        |k: Seq<char>| context_norm(t.contexts@[k]),
    )
}

/// The keys with a non-empty translation into one of the first `n` locales.
spec fn keys_upto(t: CsvTable, n: int) -> Set<Seq<char>> {
    let locs = string_views(t.locales@);
    Set::new(
        |k: Seq<char>|
            exists|i: int|
                0 <= i < n && #[trigger] locale_messages_spec(t, locs[i]).contains_key(k),
    )
}

proof fn lemma_file_read_back(t: CsvTable, msgs: Seq<Messages>, files: Seq<(String, ParsedFtl)>, i: int)
    requires
        t.wf(),
        ftl_files_of(t, msgs, files),
        forall|k: Seq<char>, l: Seq<char>|
            string_views(t.keys@).contains(k) && valid_ftl_id(k) && string_views(
                t.locales@,
            ).contains(l) ==> plain_value(#[trigger] cell(t.translations@, k, l)),
        0 <= i < files.len(),
    ensures
        files[i].1.messages@ == locale_messages_spec(t, string_views(t.locales@)[i]),
        files[i].1.contexts@ == contexts_read_back(
            locale_messages_spec(t, string_views(t.locales@)[i]),
            t.contexts@,
        ),
{
    let locs = string_views(t.locales@);
    let m = msgs[i];
    assert(m.wf());
    assert(files[i].0@ == locs[i]);
    assert forall|k: Seq<char>| #[trigger] m@.contains_key(k) implies valid_ftl_id(k)
        && plain_value(m@[k]) by {
        assert(locs.contains(locs[i]));
        assert(plain_value(cell(t.translations@, k, locs[i])));
    }
    lemma_render_parse_roundtrip(m, t.contexts);
}

proof fn lemma_merged_upto(t: CsvTable, files: Seq<(String, ParsedFtl)>, n: int)
    requires
        0 <= n <= files.len(),
        files.len() == t.locales@.len(),
        forall|i: int|
            0 <= i < files.len() ==> (#[trigger] files[i]).0@ == string_views(t.locales@)[i]
                && files[i].1.messages@ == locale_messages_spec(t, string_views(t.locales@)[i])
                && files[i].1.contexts@ == contexts_read_back(
                locale_messages_spec(t, string_views(t.locales@)[i]),
                t.contexts@,
            ),
    ensures
        message_keys(files, n) == keys_upto(t, n),
        messages_by_locale(files, n) == Map::new(
            |l: Seq<char>| string_views(t.locales@).take(n).contains(l),
            |l: Seq<char>| locale_messages_spec(t, l),
        ),
        merged_contexts(files, n) == Map::new(
            |k: Seq<char>|
                keys_upto(t, n).contains(k) && t.contexts@.contains_key(k) && context_norm(
                    t.contexts@[k],
                ).len() > 0,
            |k: Seq<char>| context_norm(t.contexts@[k]),
        ),
    decreases n,
{
    let locs = string_views(t.locales@);
    if n > 0 {
        lemma_merged_upto(t, files, n - 1);
        let l = locs[n - 1];
        let ml = locale_messages_spec(t, l);
        assert(files[n - 1].0@ == l);
        assert forall|k: Seq<char>| #[trigger] keys_upto(t, n).contains(k) == (keys_upto(
            t,
            n - 1,
        ).contains(k) || ml.contains_key(k)) by {
            if keys_upto(t, n).contains(k) {
                let i = choose|i: int|
                    0 <= i < n && #[trigger] locale_messages_spec(t, locs[i]).contains_key(k);
                if i < n - 1 {
                    assert(keys_upto(t, n - 1).contains(k));
                }
            }
            if keys_upto(t, n - 1).contains(k) {
                let i = choose|i: int|
                    0 <= i < n - 1 && #[trigger] locale_messages_spec(t, locs[i]).contains_key(k);
                assert(keys_upto(t, n).contains(k));
            }
        }
        assert(message_keys(files, n) =~= keys_upto(t, n));
        lemma_take_push_contains(locs, n - 1);
        assert forall|x: Seq<char>| #[trigger] locs.take(n).contains(x) == (locs.take(n - 1).contains(x)
            || x == l) by {
            assert(locs.take((n - 1) + 1).contains(x) == (locs.take(n - 1).contains(x) || x == l));
        }
        assert(messages_by_locale(files, n) =~= Map::new(
            |x: Seq<char>| locs.take(n).contains(x),
            |x: Seq<char>| locale_messages_spec(t, x),
        ));
        assert(merged_contexts(files, n) =~= Map::new(
            |k: Seq<char>|
                keys_upto(t, n).contains(k) && t.contexts@.contains_key(k) && context_norm(
                    t.contexts@[k],
                ).len() > 0,
            |k: Seq<char>| context_norm(t.contexts@[k]),
        ));
    } else {
        assert(keys_upto(t, 0) =~= Set::empty());
        assert(messages_by_locale(files, 0) =~= Map::new(
            |x: Seq<char>| locs.take(0).contains(x),
            |x: Seq<char>| locale_messages_spec(t, x),
        ));
        assert(merged_contexts(files, 0) =~= Map::new(
            |k: Seq<char>|
                keys_upto(t, 0).contains(k) && t.contexts@.contains_key(k) && context_norm(
                    t.contexts@[k],
                ).len() > 0,
            |k: Seq<char>| context_norm(t.contexts@[k]),
        ));
    }
}

/// Writing the `.ftl` file of each locale of a table and building the table
/// from those files again keeps every translation of a key that is a valid
/// identifier, drops the empty ones (and a key left with none), and keeps
/// the contexts of the kept keys in normalized form (each line trimmed,
/// empty lines dropped). It holds when every translation of a valid key is
/// plain (see `plain_value`).
pub proof fn lemma_ftl_round_trip(t: CsvTable, msgs: Seq<Messages>, files: Seq<(String, ParsedFtl)>)
    requires
        t.wf(),
        ftl_files_of(t, msgs, files),
        forall|k: Seq<char>, l: Seq<char>|
            string_views(t.keys@).contains(k) && valid_ftl_id(k) && string_views(
                t.locales@,
            ).contains(l) ==> plain_value(#[trigger] cell(t.translations@, k, l)),
    ensures
        merged_translations(files) == kept_translations(t),
        merged_contexts(files, files.len() as int) == kept_contexts(t),
{
    let locs = string_views(t.locales@);
    let n = files.len() as int;
    assert forall|i: int| 0 <= i < files.len() implies (#[trigger] files[i]).0@ == locs[i]
        && files[i].1.messages@ == locale_messages_spec(t, locs[i]) && files[i].1.contexts@
        == contexts_read_back(locale_messages_spec(t, locs[i]), t.contexts@) by {
        lemma_file_read_back(t, msgs, files, i);
    }
    lemma_merged_upto(t, files, n);
    assert(locs.take(n) =~= locs);
    let kept = kept_translations(t);
    assert forall|k: Seq<char>| #[trigger] keys_upto(t, n).contains(k) == kept.contains_key(k) by {
        if keys_upto(t, n).contains(k) {
            let i = choose|i: int|
                0 <= i < n && #[trigger] locale_messages_spec(t, locs[i]).contains_key(k);
            assert(locs.contains(locs[i]));
        }
        if kept.contains_key(k) {
            let l = choose|l: Seq<char>|
                #[trigger] locs.contains(l) && cell(t.translations@, k, l).len() > 0;
            let i = choose|i: int| 0 <= i < locs.len() && locs[i] == l;
            assert(locale_messages_spec(t, locs[i]).contains_key(k));
        }
    }
    let mbl = messages_by_locale(files, n);
    assert forall|k: Seq<char>| #[trigger] kept.contains_key(k) implies key_translations(mbl, k)
        == kept[k] by {
        assert(key_translations(mbl, k) =~= kept[k]);
    }
    assert(merged_translations(files) =~= kept);
    assert(merged_contexts(files, n) =~= kept_contexts(t));
}

} // verus!
