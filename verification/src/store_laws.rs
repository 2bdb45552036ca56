//! What holds of a store text that was written and is read again.
//!
//! Reading the text that was written for some entries gives these entries
//! back only if every opaque one among them stays whole: cleared of blanks
//! and divided at `},` once more, it must come out as the same single
//! fragment, wherever it stands. The laws on deleting and updating are
//! stated for stores whose opaque entries are of this kind.
use crate::ids::{lemma_lowest_available, lowest_available};
use crate::store::{
    array_body, closing, entries, entry_of, entry_text, first_index_from, first_with_id,
    fragments, fragments_of, has_array, ids_of, last_index_before, new_task, normalized, render,
    tasks_of, updated_entries, updated_entry, with_new_task, without_id, EntryView,
};
use crate::task::{
    as_decoded, cleared, decode_task, fits, initial_status, key_description,
    lemma_decode_encode_trims,
    lemma_decoded_task, lemma_encode_shape, lemma_encode_without_blanks, lemma_keys,
    separator_free, survives_decoding, updated_task, TaskView,
};
use crate::text::{
    blank_free, free_of, is_blank, join, lemma_split_join, lemma_split_one, lemma_trim_nothing,
    lemma_trim_wrapped, lemma_without_blanks_clears, lemma_without_blanks_concat,
    lemma_without_blanks_same, occurs_at, split, trim, without_blanks,
};
use vstd::prelude::*;

verus! {

/// Whether the fragment `s` stays whole when it is written among other
/// entries and read again: it holds no `},`, something other than a `}`
/// stands before its last character, and it does not start with a bracket.
pub open spec fn stays_whole(s: Seq<char>) -> bool {
    &&& s.len() >= 2
    &&& s[s.len() - 2] != '}'
    &&& s[0] != '[' && s[0] != ']'
    &&& forall|j: int| !occurs_at(s, closing(), j)
}

/// Whether the opaque entries among `es` stay whole.
pub open spec fn opaque_entries_stay_whole(es: Seq<EntryView>) -> bool {
    forall|i: int|
        0 <= i < es.len() ==> match #[trigger] es[i] {
            EntryView::Opaque(s) => stays_whole(s),
            EntryView::Decoded(_) => true,
        }
}

/// Whether the entry `e` can be written and read again: a task has numbers
/// of 64 bits and no `,` or `:` in its description and status; an opaque
/// entry is a fragment that holds no task and stays whole.
pub open spec fn rewritable(e: EntryView) -> bool {
    match e {
        EntryView::Decoded(t) => fits(t) && separator_free(t.description) && separator_free(
            t.status,
        ),
        EntryView::Opaque(s) => {
            &&& blank_free(s)
            &&& s.len() > 0
            &&& s.last() == '}'
            &&& decode_task(s) is None
            &&& stays_whole(s)
        },
    }
}

/// The entry that is read where `e` was written: the description and the
/// status of a task are cleared of blanks and of the quotes at their ends.
pub open spec fn as_reread(e: EntryView) -> EntryView {
    match e {
        EntryView::Decoded(t) => EntryView::Decoded(as_decoded(cleared(t))),
        EntryView::Opaque(_) => e,
    }
}

/// A text cleared of blanks holds no `,` and no `:` where it held none
/// before.
proof fn lemma_cleared_separator_free(s: Seq<char>)
    requires
        separator_free(s),
    ensures
        separator_free(without_blanks(s)),
{
    lemma_without_blanks_clears(s);
    let r = without_blanks(s);
    assert forall|i: int| 0 <= i < r.len() implies r[i] != ',' && r[i] != ':' by {
        assert(s.contains(r[i]));
    }
}

/// The text that is written for a rewritable entry stays whole, and the
/// fragment that is read from it, with or without its last `}`, gives the
/// entry as it is read again.
pub proof fn lemma_entry_text(e: EntryView)
    requires
        rewritable(e),
    ensures
        stays_whole(entry_text(e)),
        entry_text(e).last() == '}',
        normalized(entry_text(e)) == without_blanks(entry_text(e)),
        normalized(entry_text(e).drop_last()) == without_blanks(entry_text(e)),
        entry_of(without_blanks(entry_text(e))) == as_reread(e),
{
    let text = entry_text(e);
    let head = text.drop_last();
    let brace = seq!['}'];
    lemma_without_blanks_same(brace);
    match e {
        EntryView::Decoded(t) => {
            let c = cleared(t);
            lemma_cleared_separator_free(t.description);
            lemma_cleared_separator_free(t.status);
            lemma_encode_shape(t);
            lemma_encode_shape(c);
            lemma_encode_without_blanks(t);
            lemma_decode_encode_trims(c);
            assert(text =~= head + brace);
            lemma_without_blanks_concat(head, brace);
            let bare = without_blanks(text);
            assert(without_blanks(head) =~= bare.drop_last());
            assert(bare.drop_last().last() == bare[bare.len() - 2]);
            assert(bare.drop_last().push('}') =~= bare);
        },
        EntryView::Opaque(s) => {
            lemma_without_blanks_same(s);
            assert forall|i: int| 0 <= i < head.len() implies !is_blank(#[trigger] head[i]) by {
                assert(head[i] == s[i]);
            }
            lemma_without_blanks_same(head);
            assert(head.last() == s[s.len() - 2]);
            assert(head.push('}') =~= s);
        },
    }
}

/// The texts that are written for `es`.
pub open spec fn entry_texts(es: Seq<EntryView>) -> Seq<Seq<char>> {
    es.map_values(|e: EntryView| entry_text(e))
}

/// A join of parts that are not empty starts as the first part does and
/// ends as the last one does.
proof fn lemma_join_ends(parts: Seq<Seq<char>>, sep: Seq<char>)
    requires
        parts.len() > 0,
        forall|i: int| 0 <= i < parts.len() ==> (#[trigger] parts[i]).len() > 0,
    ensures
        join(parts, sep).len() > 0,
        join(parts, sep)[0] == parts[0][0],
        join(parts, sep).last() == parts.last().last(),
    decreases parts.len(),
{
    if parts.len() > 1 {
        let head = parts.drop_last();
        assert forall|i: int| 0 <= i < head.len() implies (#[trigger] head[i]).len() > 0 by {
            assert(head[i] == parts[i]);
        }
        lemma_join_ends(head, sep);
        assert(head[0] == parts[0]);
    }
}

/// The array of a store text that was written holds what was put between
/// the brackets, where that neither starts nor ends with a bracket.
proof fn lemma_array_body_of_written(inner: Seq<char>)
    requires
        inner.len() > 0 ==> inner[0] != '[' && inner[0] != ']' && inner.last() != '['
            && inner.last() != ']',
    ensures
        array_body(seq!['['] + inner + seq![']', '\n']) == inner,
{
    let text = seq!['['] + inner + seq![']', '\n'];
    let n = text.len() as int;
    assert(text[0] == '[');
    assert(first_index_from(text, '[', 0) == 0);
    assert(text[n - 1] == '\n');
    assert(text[n - 2] == ']');
    assert(last_index_before(text, ']', n - 1) == n - 2);
    assert(last_index_before(text, ']', n) == n - 2);
    assert(has_array(text));
    assert(text.subrange(0, n - 1) =~= seq!['['] + inner + seq![']']);
    lemma_trim_wrapped(inner, '[', ']', '[', ']');
}

/// A text that holds no `},` is free of that separator, and so is what
/// stands before its last character.
proof fn lemma_free_of_closing(p: Seq<char>)
    requires
        forall|j: int| !occurs_at(p, closing(), j),
    ensures
        free_of(p, closing()),
        p.len() > 0 ==> free_of(p.drop_last(), closing()),
{
    let sep = closing();
    assert forall|j: int| 0 <= j < p.len() implies !occurs_at(p + sep, sep, j) by {
        if occurs_at(p + sep, sep, j) {
            let pair = (p + sep).subrange(j, j + 2);
            assert(pair[0] == (p + sep)[j]);
            assert(pair[1] == (p + sep)[j + 1]);
            if j + 1 < p.len() {
                assert(p.subrange(j, j + 2) =~= sep);
                assert(occurs_at(p, sep, j));
            }
        }
    }
    if p.len() > 0 {
        let q = p.drop_last();
        assert forall|j: int| 0 <= j < q.len() implies !occurs_at(q + sep, sep, j) by {
            if occurs_at(q + sep, sep, j) {
                let pair = (q + sep).subrange(j, j + 2);
                assert(pair[0] == (q + sep)[j]);
                assert(pair[1] == (q + sep)[j + 1]);
                if j + 1 < q.len() {
                    assert(p.subrange(j, j + 2) =~= sep);
                    assert(occurs_at(p, sep, j));
                }
            }
        }
    }
}

/// The pieces into which the join of `texts` by `,` falls at `},`: each
/// text without its last character, but the last text whole.
pub open spec fn pieces_of_written(texts: Seq<Seq<char>>) -> Seq<Seq<char>> {
    Seq::new(
        texts.len(),
        |i: int|
            if i + 1 < texts.len() {
                texts[i].drop_last()
            } else {
                texts[i]
            },
    )
}

/// Joining texts that end with `}` by `,` is joining their pieces by `},`.
proof fn lemma_join_closed(texts: Seq<Seq<char>>)
    requires
        texts.len() > 0,
        forall|i: int|
            0 <= i < texts.len() ==> (#[trigger] texts[i]).len() > 0 && texts[i].last() == '}',
    ensures
        join(texts, seq![',']) == join(pieces_of_written(texts), closing()),
    decreases texts.len(),
{
    let comma = seq![','];
    let pieces = pieces_of_written(texts);
    if texts.len() == 1 {
        assert(pieces[0] == texts[0]);
    } else {
        let head = texts.drop_last();
        assert forall|i: int| 0 <= i < head.len() implies (#[trigger] head[i]).len() > 0
            && head[i].last() == '}' by {
            assert(head[i] == texts[i]);
        }
        lemma_join_closed(head);
        let head_pieces = pieces_of_written(head);
        let k = head.len() - 1;
        // The pieces of the head differ from the head of the pieces in the
        // last one only, which kept its `}`.
        assert(head_pieces.drop_last() =~= pieces.drop_last().drop_last());
        assert(pieces.drop_last().last() == texts[k].drop_last());
        assert(head_pieces.last() == texts[k]);
        assert(texts[k] =~= texts[k].drop_last() + seq!['}']);
        assert(pieces.last() == texts.last());
        if head.len() == 1 {
            assert(join(head_pieces, closing()) == texts[k]);
            assert(join(pieces.drop_last(), closing()) == texts[k].drop_last());
            assert(join(pieces, closing()) =~= join(head_pieces, closing()) + comma
                + texts.last());
        } else {
            let front = join(head_pieces.drop_last(), closing());
            assert(join(head_pieces, closing()) == front + closing() + texts[k]);
            assert(join(pieces.drop_last(), closing()) == front + closing()
                + texts[k].drop_last());
            assert(join(pieces, closing()) =~= join(head_pieces, closing()) + comma
                + texts.last());
        }
    }
}

/// The fragments of pieces that are not empty are what the pieces give
/// one by one.
proof fn lemma_fragments_of_each(pieces: Seq<Seq<char>>, given: Seq<Seq<char>>)
    requires
        pieces.len() == given.len(),
        forall|i: int|
            0 <= i < pieces.len() ==> (#[trigger] pieces[i]).len() > 0 && normalized(pieces[i])
                == given[i],
    ensures
        fragments_of(pieces) == given,
    decreases pieces.len(),
{
    if pieces.len() > 0 {
        let head = pieces.drop_last();
        let given_head = given.drop_last();
        assert forall|i: int| 0 <= i < head.len() implies (#[trigger] head[i]).len() > 0
            && normalized(head[i]) == given_head[i] by {
            assert(head[i] == pieces[i]);
        }
        lemma_fragments_of_each(head, given_head);
        assert(pieces[pieces.len() - 1].len() > 0);
        assert(given_head.push(given.last()) =~= given);
    } else {
        assert(given =~= Seq::<Seq<char>>::empty());
    }
}

/// Reading the store text that was written for rewritable entries gives
/// each of them as it is read again, in the same order.
pub proof fn lemma_reread(es: Seq<EntryView>)
    requires
        forall|i: int| 0 <= i < es.len() ==> rewritable(#[trigger] es[i]),
    ensures
        entries(render(es)) == es.map_values(|e: EntryView| as_reread(e)),
{
    let texts = entry_texts(es);
    let inner = join(texts, seq![',']);
    let reread = es.map_values(|e: EntryView| as_reread(e));
    assert(render(es) == seq!['['] + inner + seq![']', '\n']);
    if es.len() == 0 {
        lemma_array_body_of_written(inner);
        let pieces = split(inner, closing());
        assert(inner.len() == 0);
        lemma_split_one(inner, closing());
        assert(pieces.drop_last() =~= Seq::<Seq<char>>::empty());
        assert(fragments_of(pieces.drop_last()) =~= Seq::<Seq<char>>::empty());
        assert(fragments(render(es)) =~= Seq::<Seq<char>>::empty());
        assert(entries(render(es)) =~= reread);
    } else {
        assert forall|i: int| 0 <= i < texts.len() implies (#[trigger] texts[i]).len() > 0
            && texts[i].last() == '}' by {
            lemma_entry_text(es[i]);
        }
        lemma_entry_text(es[0]);
        lemma_join_ends(texts, seq![',']);
        lemma_array_body_of_written(inner);
        lemma_join_closed(texts);
        let pieces = pieces_of_written(texts);
        let bare = texts.map_values(|t: Seq<char>| without_blanks(t));
        assert forall|i: int| 0 <= i < pieces.len() implies free_of(
            #[trigger] pieces[i],
            closing(),
        ) && pieces[i].len() > 0 && normalized(pieces[i]) == bare[i] by {
            lemma_entry_text(es[i]);
            lemma_free_of_closing(texts[i]);
        }
        lemma_split_join(pieces, closing());
        lemma_fragments_of_each(pieces, bare);
        assert(fragments(render(es)) == bare);
        assert forall|i: int| 0 <= i < es.len() implies entry_of(bare[i]) == as_reread(
            es[i],
        ) by {
            lemma_entry_text(es[i]);
        }
        assert(entries(render(es)) =~= reread);
    }
}

// ---------------------------------------------------------------------
// The entries of any store text
// ---------------------------------------------------------------------

/// Whether the entry `e` is one that reading gives: a task has numbers of
/// 64 bits, and its description and status hold no blank and survive
/// decoding; an opaque entry holds no blank and no task and ends with `}`.
pub open spec fn as_parsed(e: EntryView) -> bool {
    match e {
        EntryView::Decoded(t) => {
            &&& fits(t)
            &&& survives_decoding(t.description)
            &&& survives_decoding(t.status)
            &&& blank_free(t.description)
            &&& blank_free(t.status)
        },
        EntryView::Opaque(s) => {
            &&& blank_free(s)
            &&& s.len() > 0
            &&& s.last() == '}'
            &&& decode_task(s) is None
        },
    }
}

/// Every fragment holds no blank and ends with `}`.
proof fn lemma_fragments_of_shape(pieces: Seq<Seq<char>>)
    ensures
        forall|i: int|
            0 <= i < fragments_of(pieces).len() ==> {
                let f = #[trigger] fragments_of(pieces)[i];
                blank_free(f) && f.len() > 0 && f.last() == '}'
            },
    decreases pieces.len(),
{
    if pieces.len() > 0 {
        let head = fragments_of(pieces.drop_last());
        let all = fragments_of(pieces);
        lemma_fragments_of_shape(pieces.drop_last());
        lemma_without_blanks_clears(pieces.last());
        let bare = without_blanks(pieces.last());
        let f = normalized(pieces.last());
        assert forall|k: int| 0 <= k < f.len() implies !is_blank(#[trigger] f[k]) by {
            if k < bare.len() {
                assert(f[k] == bare[k]);
            }
        }
        assert forall|i: int| 0 <= i < all.len() implies blank_free(#[trigger] all[i])
            && all[i].len() > 0 && all[i].last() == '}' by {
            if i < head.len() {
                assert(all[i] == head[i]);
            }
        }
    }
}

/// Every entry of a store text is one that reading gives.
pub proof fn lemma_parsed_entries(contents: Seq<char>)
    ensures
        forall|i: int|
            0 <= i < entries(contents).len() ==> as_parsed(#[trigger] entries(contents)[i]),
{
    let fs = fragments(contents);
    lemma_fragments_of_shape(split(array_body(contents), closing()));
    assert forall|i: int| 0 <= i < entries(contents).len() implies as_parsed(
        #[trigger] entries(contents)[i],
    ) by {
        let f = fs[i];
        assert(entries(contents)[i] == entry_of(f));
        if decode_task(f) is Some {
            let t = decode_task(f)->0;
            lemma_decoded_task(f);
            assert forall|k: int| 0 <= k < t.description.len() implies !is_blank(
                #[trigger] t.description[k],
            ) by {
                assert(f.contains(t.description[k]));
            }
            assert forall|k: int| 0 <= k < t.status.len() implies !is_blank(
                #[trigger] t.status[k],
            ) by {
                assert(f.contains(t.status[k]));
            }
        }
    }
}

/// An entry that reading gave, and that stays whole if it is opaque, can
/// be written, and is read again as it is.
pub proof fn lemma_parsed_is_rewritable(e: EntryView)
    requires
        as_parsed(e),
        match e {
            EntryView::Opaque(s) => stays_whole(s),
            EntryView::Decoded(_) => true,
        },
    ensures
        rewritable(e),
        as_reread(e) == e,
{
    match e {
        EntryView::Decoded(t) => {
            lemma_without_blanks_same(t.description);
            lemma_without_blanks_same(t.status);
            lemma_trim_nothing(t.description, '"', '"');
            lemma_trim_nothing(t.status, '"', '"');
        },
        EntryView::Opaque(_) => {},
    }
}

// ---------------------------------------------------------------------
// Deleting and updating, on entries
// ---------------------------------------------------------------------

/// The first task with an id among tasks and one more is the first among
/// the tasks, or else the one more if it has the id.
proof fn lemma_first_with_id_push(tasks: Seq<TaskView>, t: TaskView, id: nat)
    ensures
        first_with_id(tasks.push(t), id) == if first_with_id(tasks, id) is Some {
            first_with_id(tasks, id)
        } else if t.id == id {
            Some(t)
        } else {
            None
        },
    decreases tasks.len(),
{
    let more = tasks.push(t);
    if tasks.len() == 0 {
        assert(more.drop_first() =~= tasks);
    } else {
        assert(more.drop_first() =~= tasks.drop_first().push(t));
        lemma_first_with_id_push(tasks.drop_first(), t, id);
    }
}

/// The tasks among entries and one more entry.
proof fn lemma_tasks_of_push(es: Seq<EntryView>, e: EntryView)
    ensures
        tasks_of(es.push(e)) == match e {
            EntryView::Decoded(t) => tasks_of(es).push(t),
            EntryView::Opaque(_) => tasks_of(es),
        },
{
    assert(es.push(e).drop_last() =~= es);
}

/// Among the entries without the tasks with the id `deleted` no task has
/// that id, and the first task with any other id is the one it was.
pub proof fn lemma_without_id(es: Seq<EntryView>, deleted: nat, other: nat)
    ensures
        first_with_id(tasks_of(without_id(es, deleted)), deleted) is None,
        other != deleted ==> first_with_id(tasks_of(without_id(es, deleted)), other)
            == first_with_id(tasks_of(es), other),
        forall|i: int|
            0 <= i < without_id(es, deleted).len() ==> es.contains(
                #[trigger] without_id(es, deleted)[i],
            ),
    decreases es.len(),
{
    if es.len() > 0 {
        let head = es.drop_last();
        let e = es.last();
        lemma_without_id(head, deleted, other);
        let kept = without_id(head, deleted);
        assert forall|i: int| 0 <= i < kept.len() implies es.contains(#[trigger] kept[i]) by {
            let k = choose|k: int| 0 <= k < head.len() && head[k] == kept[i];
            assert(es[k] == kept[i]);
        }
        assert(es[es.len() - 1] == e);
        match e {
            EntryView::Decoded(t) => {
                lemma_first_with_id_push(tasks_of(head), t, other);
                if t.id != deleted {
                    lemma_tasks_of_push(kept, e);
                    lemma_first_with_id_push(tasks_of(kept), t, deleted);
                    lemma_first_with_id_push(tasks_of(kept), t, other);
                }
            },
            EntryView::Opaque(_) => {
                lemma_tasks_of_push(kept, e);
            },
        }
    }
}

/// A value as it is read after it was written: cleared of blanks and of the
/// quotes at its ends.
pub open spec fn as_read(value: Option<Seq<char>>) -> Option<Seq<char>> {
    match value {
        Some(v) => Some(trim(without_blanks(v), '"', '"')),
        None => None,
    }
}

/// The entries that are read after an update of the task `id` was written.
pub open spec fn reread_after_update(
    es: Seq<EntryView>,
    id: nat,
    key: Option<Seq<char>>,
    value: Option<Seq<char>>,
    now: nat,
) -> Seq<EntryView> {
    updated_entries(es, id, key, value, now).map_values(|e: EntryView| as_reread(e))
}

/// A task that reading gave is, after an update and a rewrite, the task
/// updated with the value as it is read.
proof fn lemma_updated_task_reread(
    t: TaskView,
    key: Option<Seq<char>>,
    value: Option<Seq<char>>,
    now: nat,
)
    requires
        as_parsed(EntryView::Decoded(t)),
    ensures
        as_decoded(cleared(updated_task(t, key, value, now))) == updated_task(
            t,
            key,
            as_read(value),
            now,
        ),
        as_decoded(cleared(t)) == t,
{
    lemma_without_blanks_same(t.description);
    lemma_without_blanks_same(t.status);
    lemma_trim_nothing(t.description, '"', '"');
    lemma_trim_nothing(t.status, '"', '"');
}

/// Among the entries that are read after an update of the task `id`, the
/// first task with that id is the first one there was, updated with the
/// value as it is read; the first task with any other id is the one it was.
proof fn lemma_reread_after_update(
    es: Seq<EntryView>,
    id: nat,
    key: Option<Seq<char>>,
    value: Option<Seq<char>>,
    now: nat,
    other: nat,
)
    requires
        forall|i: int| 0 <= i < es.len() ==> as_parsed(#[trigger] es[i]),
    ensures
        first_with_id(tasks_of(reread_after_update(es, id, key, value, now)), id) == match first_with_id(
            tasks_of(es),
            id,
        ) {
            Some(t) => Some(updated_task(t, key, as_read(value), now)),
            None => None,
        },
        other != id ==> first_with_id(tasks_of(reread_after_update(es, id, key, value, now)), other)
            == first_with_id(tasks_of(es), other),
    decreases es.len(),
{
    let after = reread_after_update(es, id, key, value, now);
    if es.len() > 0 {
        let head = es.drop_last();
        let e = es.last();
        assert forall|i: int| 0 <= i < head.len() implies as_parsed(#[trigger] head[i]) by {
            assert(head[i] == es[i]);
        }
        lemma_reread_after_update(head, id, key, value, now, other);
        let head_after = reread_after_update(head, id, key, value, now);
        assert(after.drop_last() =~= head_after);
        assert(after.last() == as_reread(updated_entry(e, id, key, value, now)));
        assert(as_parsed(es[es.len() - 1]));
        match e {
            EntryView::Decoded(t) => {
                lemma_updated_task_reread(t, key, value, now);
                lemma_first_with_id_push(tasks_of(head), t, id);
                lemma_first_with_id_push(tasks_of(head), t, other);
                if t.id == id {
                    let u = updated_task(t, key, as_read(value), now);
                    assert(after.last() == EntryView::Decoded(u));
                    lemma_first_with_id_push(tasks_of(head_after), u, id);
                    lemma_first_with_id_push(tasks_of(head_after), u, other);
                } else {
                    assert(after.last() == EntryView::Decoded(t));
                    lemma_first_with_id_push(tasks_of(head_after), t, id);
                    lemma_first_with_id_push(tasks_of(head_after), t, other);
                }
            },
            EntryView::Opaque(_) => {},
        }
    } else {
        assert(tasks_of(after) =~= Seq::<TaskView>::empty());
    }
}

// ---------------------------------------------------------------------
// The laws
// ---------------------------------------------------------------------

/// Listing reads the store text and nothing else: two listings of one
/// text give the same tasks in the same order.
pub proof fn lemma_list_twice(contents: Seq<char>, first: Seq<TaskView>, second: Seq<TaskView>)
    requires
        first == tasks_of(entries(contents)),
        second == tasks_of(entries(contents)),
    ensures
        first == second,
{
}

/// After a task was deleted, reading its id finds nothing, and reading any
/// other id finds what it found before, in a store whose opaque entries
/// stay whole.
pub proof fn lemma_delete_then_read(contents: Seq<char>, deleted: nat, other: nat)
    requires
        opaque_entries_stay_whole(entries(contents)),
    ensures
        first_with_id(
            tasks_of(entries(render(without_id(entries(contents), deleted)))),
            deleted,
        ) is None,
        other != deleted ==> first_with_id(
            tasks_of(entries(render(without_id(entries(contents), deleted)))),
            other,
        ) == first_with_id(tasks_of(entries(contents)), other),
{
    let es = entries(contents);
    let kept = without_id(es, deleted);
    lemma_parsed_entries(contents);
    lemma_without_id(es, deleted, other);
    assert forall|i: int| 0 <= i < kept.len() implies rewritable(#[trigger] kept[i])
        && as_reread(kept[i]) == kept[i] by {
        let k = choose|k: int| 0 <= k < es.len() && es[k] == kept[i];
        lemma_parsed_is_rewritable(es[k]);
    }
    lemma_reread(kept);
    assert(kept.map_values(|e: EntryView| as_reread(e)) =~= kept);
}

/// After an update of the task `id` with a value that holds no `,` and no
/// `:`, reading that id finds the task updated with the value as it is
/// read, and reading any other id finds what it found before, in a store
/// whose opaque entries stay whole. An update of the description leaves the
/// id, the status and the time of creation as they were.
pub proof fn lemma_update_then_read(
    contents: Seq<char>,
    id: nat,
    key: Option<Seq<char>>,
    value: Option<Seq<char>>,
    now: nat,
    other: nat,
)
    requires
        opaque_entries_stay_whole(entries(contents)),
        value is Some ==> separator_free(value->0),
        now <= u64::MAX,
    ensures
        first_with_id(
            tasks_of(entries(render(updated_entries(entries(contents), id, key, value, now)))),
            id,
        ) == match first_with_id(tasks_of(entries(contents)), id) {
            Some(t) => Some(updated_task(t, key, as_read(value), now)),
            None => None,
        },
        other != id ==> first_with_id(
            tasks_of(entries(render(updated_entries(entries(contents), id, key, value, now)))),
            other,
        ) == first_with_id(tasks_of(entries(contents)), other),
        forall|t: TaskView|
            key == Some(key_description()) ==> {
                let u = #[trigger] updated_task(t, key, as_read(value), now);
                u.id == t.id && u.status == t.status && u.created_at == t.created_at
            },
{
    let es = entries(contents);
    let changed = updated_entries(es, id, key, value, now);
    lemma_parsed_entries(contents);
    lemma_keys();
    assert forall|i: int| 0 <= i < changed.len() implies rewritable(#[trigger] changed[i]) by {
        lemma_parsed_is_rewritable(es[i]);
        assert(changed[i] == updated_entry(es[i], id, key, value, now));
    }
    lemma_reread(changed);
    lemma_reread_after_update(es, id, key, value, now, other);
}

/// A task with an id is found exactly where the id is among those of the
/// tasks.
proof fn lemma_found_iff_in_use(tasks: Seq<TaskView>, id: nat)
    ensures
        first_with_id(tasks, id) is Some <==> ids_of(tasks).contains(id),
    decreases tasks.len(),
{
    let ids = ids_of(tasks);
    if tasks.len() > 0 {
        let rest = tasks.drop_first();
        lemma_found_iff_in_use(rest, id);
        if tasks[0].id == id {
            assert(ids[0] == id);
        } else {
            if ids_of(rest).contains(id) {
                let k = choose|k: int| 0 <= k < rest.len() && ids_of(rest)[k] == id;
                assert(ids[k + 1] == id);
            }
            if ids.contains(id) {
                let k = choose|k: int| 0 <= k < ids.len() && ids[k] == id;
                assert(ids_of(rest)[k - 1] == id);
            }
        }
    }
}

/// After a task was created with a description that holds no `,` and no
/// `:`, reading its id, which no task had, finds the new task with the
/// description as it is read, and reading any other id finds what it found
/// before, in a store whose opaque entries stay whole.
pub proof fn lemma_create_then_read(
    contents: Seq<char>,
    description: Seq<char>,
    now: nat,
    other: nat,
)
    requires
        opaque_entries_stay_whole(entries(contents)),
        separator_free(description),
        now <= u64::MAX,
        tasks_of(entries(contents)).len() <= u64::MAX,
    ensures
        ({
            let id = lowest_available(ids_of(tasks_of(entries(contents))));
            let after = entries(render(with_new_task(entries(contents), description, now)));
            &&& first_with_id(tasks_of(entries(contents)), id) is None
            &&& first_with_id(tasks_of(after), id) == Some(
                new_task(id, as_read(Some(description))->0, now),
            )
            &&& other != id ==> first_with_id(tasks_of(after), other) == first_with_id(
                tasks_of(entries(contents)),
                other,
            )
        }),
{
    let es = entries(contents);
    let tasks = tasks_of(es);
    let id = lowest_available(ids_of(tasks));
    let created = new_task(id, description, now);
    let more = with_new_task(es, description, now);
    let read = new_task(id, as_read(Some(description))->0, now);
    lemma_lowest_available(ids_of(tasks));
    lemma_found_iff_in_use(tasks, id);
    lemma_parsed_entries(contents);
    reveal_strlit("todo");
    assert(initial_status().len() == 4);
    assert(separator_free(initial_status()));
    lemma_without_blanks_same(initial_status());
    lemma_trim_nothing(initial_status(), '"', '"');
    assert(as_reread(EntryView::Decoded(created)) == EntryView::Decoded(read));
    assert forall|i: int| 0 <= i < more.len() implies rewritable(#[trigger] more[i]) by {
        if i < es.len() {
            lemma_parsed_is_rewritable(es[i]);
        }
    }
    lemma_reread(more);
    let after = more.map_values(|e: EntryView| as_reread(e));
    assert(after =~= es.push(EntryView::Decoded(read))) by {
        assert forall|i: int| 0 <= i < es.len() implies after[i] == es[i] by {
            lemma_parsed_is_rewritable(es[i]);
        }
    }
    lemma_tasks_of_push(es, EntryView::Decoded(read));
    lemma_first_with_id_push(tasks, read, id);
    lemma_first_with_id_push(tasks, read, other);
}

} // verus!
