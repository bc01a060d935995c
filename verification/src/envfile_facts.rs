//! What holds of reading, sorting and writing env files.

use vstd::prelude::*;
use crate::entry::{entry_of, has_delimiter, lemma_line_reads_back, line_of, Entry, ParseError};
use crate::envfile::{
    arranged, entries_of, entry_lines, keys_of, lines_of, lines_text, not_blank, parse_entries,
    render, sort_outcome, strip_cr,
};
use crate::group::{key_groups, pick, place_groups, places, ranked};
use crate::group_facts::{
    group_count, is_grouping, lemma_flatten_contains, lemma_group_count, lemma_groups_again,
    lemma_key_groups, lemma_pick_flatten, lemma_pick_same_items, lemma_place_groups_within,
    lemma_ranked,
};
use crate::text::{first_at, is_blank, is_space, lemma_position, lemma_position_found, position};

verus! {

/// `text` is empty or ends with a line feed.
pub open spec fn ends_lines(text: Seq<char>) -> bool {
    text.len() == 0 || text.last() == '\n'
}

/// An entry that a line of an env file can state and that reads back from
/// that line as it is: its key holds no `=`, neither key nor value holds a
/// line feed, and the value does not end with a carriage return.
pub open spec fn writable(entry: Entry) -> bool {
    &&& !entry.key.contains('=')
    &&& !entry.key.contains('\n')
    &&& !entry.value.contains('\n')
    &&& !(entry.value.len() > 0 && entry.value.last() == '\r')
}

/// Every entry of `entries` is writable.
pub open spec fn all_writable(entries: Seq<Entry>) -> bool {
    forall|i: int| 0 <= i < entries.len() ==> writable(#[trigger] entries[i])
}

/// The lines that state `entries`.
pub open spec fn lines_for(entries: Seq<Entry>) -> Seq<Seq<char>> {
    entries.map_values(|e: Entry| line_of(e))
}

/// A text of one line and its line feed has that one line.
pub proof fn lemma_lines_single(line: Seq<char>)
    requires
        !line.contains('\n'),
    ensures
        lines_of(line + seq!['\n']) == seq![strip_cr(line)],
{
    let text = line + seq!['\n'];
    let n = line.len() as int;
    assert(first_at(text, '\n', n)) by {
        assert forall|j: int| 0 <= j < n implies text[j] != '\n' by {
            assert(text[j] == line[j]);
            assert(line.contains(line[j]));
        }
    }
    lemma_position_found(text, '\n', n);
    assert(text.take(n) =~= line);
    assert(text.skip(n + 1) =~= Seq::<char>::empty());
    assert(lines_of(Seq::<char>::empty()) =~= Seq::<Seq<char>>::empty());
    assert(lines_of(text) =~= seq![strip_cr(line)]);
}

/// The lines of two texts put end to end are the lines of the first and
/// then those of the second, where the first ends with a line feed.
pub proof fn lemma_lines_concat(a: Seq<char>, b: Seq<char>)
    requires
        ends_lines(a),
    ensures
        lines_of(a + b) == lines_of(a) + lines_of(b),
    decreases a.len(),
{
    if a.len() == 0 {
        assert(a + b =~= b);
        assert(lines_of(a) + lines_of(b) =~= lines_of(b));
    } else {
        let i = position(a, '\n');
        lemma_position(a, '\n');
        if i == a.len() {
            assert(a[a.len() - 1] != '\n');
        }
        let text = a + b;
        assert(first_at(text, '\n', i)) by {
            assert forall|j: int| 0 <= j < i implies text[j] != '\n' by {
                assert(text[j] == a[j]);
            }
        }
        lemma_position_found(text, '\n', i);
        let rest = a.skip(i + 1);
        assert(text.take(i) =~= a.take(i));
        assert(text.skip(i + 1) =~= rest + b);
        assert(ends_lines(rest)) by {
            if rest.len() > 0 {
                assert(rest.last() == a.last());
            }
        }
        lemma_lines_concat(rest, b);
        assert(lines_of(text) =~= lines_of(a) + lines_of(b));
    }
}

/// The line of a writable entry holds no line feed, is not blank, does not
/// end with a carriage return, and reads back as the entry.
pub proof fn lemma_writable_line(entry: Entry)
    requires
        writable(entry),
    ensures
        !line_of(entry).contains('\n'),
        !is_blank(line_of(entry)),
        strip_cr(line_of(entry)) == line_of(entry),
        has_delimiter(line_of(entry)),
        entry_of(line_of(entry)) == entry,
{
    let line = line_of(entry);
    let k = entry.key.len() as int;
    assert(line[k] == '=');
    assert(!is_space(line[k]));
    assert forall|j: int| 0 <= j < line.len() implies line[j] != '\n' by {
        if j < k {
            assert(line[j] == entry.key[j]);
            assert(entry.key.contains(line[j]));
        } else if j > k {
            assert(line[j] == entry.value[j - k - 1]);
            assert(entry.value.contains(line[j]));
        }
    }
    if entry.value.len() > 0 {
        assert(line.last() == entry.value.last());
    }
    lemma_line_reads_back(entry);
}

/// The text that states `entries` ends its lines, and its lines are the
/// lines of the entries.
pub proof fn lemma_lines_text(entries: Seq<Entry>)
    requires
        all_writable(entries),
    ensures
        ends_lines(lines_text(entries)),
        lines_of(lines_text(entries)) == lines_for(entries),
    decreases entries.len(),
{
    if entries.len() == 0 {
        assert(lines_of(lines_text(entries)) =~= lines_for(entries));
    } else {
        let head = entries.drop_last();
        let e = entries.last();
        assert(writable(entries[entries.len() - 1]));
        assert forall|i: int| 0 <= i < head.len() implies writable(#[trigger] head[i]) by {
            assert(writable(entries[i]));
        }
        lemma_lines_text(head);
        lemma_writable_line(e);
        lemma_lines_single(line_of(e));
        let a = lines_text(head);
        let b = line_of(e) + seq!['\n'];
        assert(lines_text(entries) =~= a + b);
        lemma_lines_concat(a, b);
        assert(lines_for(entries) =~= lines_for(head).push(line_of(e)));
        assert(lines_of(lines_text(entries)) =~= lines_for(entries));
    }
}

/// Behind a text that ends its lines, the lines of one more group and the
/// empty line behind them add the lines of that group to the lines that are
/// not blank.
proof fn lemma_render_step(a: Seq<char>, last: Seq<Entry>)
    requires
        ends_lines(a),
        all_writable(last),
    ensures
        ends_lines(a + lines_text(last) + seq!['\n']),
        entry_lines(a + lines_text(last) + seq!['\n']) == entry_lines(a) + lines_for(last),
{
    let none = Seq::<char>::empty();
    let b = lines_text(last);
    let c = seq!['\n'];
    let keep = not_blank();
    lemma_lines_text(last);
    assert(lines_of(c) == seq![none]) by {
        assert(c =~= none + seq!['\n']);
        lemma_lines_single(none);
    }
    assert(ends_lines(a + b)) by {
        if b.len() > 0 {
            assert((a + b).last() == b.last());
        } else {
            assert(a + b =~= a);
        }
    }
    assert(lines_of(a + b) == lines_of(a) + lines_for(last)) by {
        lemma_lines_concat(a, b);
    }
    assert(lines_of(a + b + c) == (lines_of(a) + lines_for(last)).push(none)) by {
        lemma_lines_concat(a + b, c);
        assert(lines_of(a + b) + seq![none] =~= (lines_of(a) + lines_for(last)).push(none));
    }
    assert(!keep(none)) by {
        assert(is_blank(none));
    }
    assert((lines_of(a) + lines_for(last)).push(none).filter(keep) == lines_of(a).filter(keep)
        + lines_for(last)) by {
        (lines_of(a) + lines_for(last)).lemma_filter_push(none, keep);
        Seq::filter_distributes_over_add(lines_of(a), lines_for(last), keep);
        lemma_filter_keeps_lines(last);
    }
}

/// The lines of a written file that are not blank are the lines of its
/// entries, group after group.
pub proof fn lemma_render_lines(groups: Seq<Seq<Entry>>)
    requires
        forall|g: int| 0 <= g < groups.len() ==> all_writable(#[trigger] groups[g]),
    ensures
        ends_lines(render(groups)),
        entry_lines(render(groups)) == lines_for(groups.flatten()),
    decreases groups.len(),
{
    if groups.len() == 0 {
        assert(groups.flatten() =~= Seq::<Entry>::empty());
        assert(lines_of(render(groups)).filter(not_blank()) =~= Seq::<Seq<char>>::empty()) by {
            reveal(Seq::filter);
        }
        assert(entry_lines(render(groups)) =~= lines_for(groups.flatten()));
    } else {
        let head = groups.drop_last();
        let last = groups.last();
        assert(all_writable(groups[groups.len() - 1]));
        assert forall|g: int| 0 <= g < head.len() implies all_writable(#[trigger] head[g]) by {
            assert(all_writable(groups[g]));
        }
        lemma_render_lines(head);
        lemma_render_step(render(head), last);
        assert(lines_for(groups.flatten()) == lines_for(head.flatten()) + lines_for(last)) by {
            assert(groups =~= head.push(last));
            head.lemma_flatten_push(last);
            assert(lines_for(head.flatten() + last) =~= lines_for(head.flatten()) + lines_for(
                last,
            ));
        }
    }
}

/// None of the lines that state writable entries is blank.
proof fn lemma_filter_keeps_lines(entries: Seq<Entry>)
    requires
        all_writable(entries),
    ensures
        lines_for(entries).filter(not_blank()) == lines_for(entries),
    decreases entries.len(),
{
    if entries.len() == 0 {
        assert(lines_for(entries).filter(not_blank()) =~= lines_for(entries)) by {
            reveal(Seq::filter);
        }
    } else {
        let head = entries.drop_last();
        assert(writable(entries[entries.len() - 1]));
        assert forall|i: int| 0 <= i < head.len() implies writable(#[trigger] head[i]) by {
            assert(writable(entries[i]));
        }
        lemma_filter_keeps_lines(head);
        lemma_writable_line(entries.last());
        assert(lines_for(entries) =~= lines_for(head).push(line_of(entries.last())));
        lines_for(head).lemma_filter_push(line_of(entries.last()), not_blank());
    }
}

/// A written file reads back as the entries that it was written from, group
/// after group.
pub proof fn lemma_render_reads_back(groups: Seq<Seq<Entry>>)
    requires
        forall|g: int| 0 <= g < groups.len() ==> all_writable(#[trigger] groups[g]),
    ensures
        parse_entries(render(groups)) == Ok::<Seq<Entry>, ParseError>(groups.flatten()),
{
    lemma_render_lines(groups);
    let flat = groups.flatten();
    let lines = lines_for(flat);
    assert forall|x: Entry| flat.contains(x) implies writable(x) by {
        lemma_flatten_contains(groups, x);
        let (g, i) = choose|g: int, i: int|
            0 <= g < groups.len() && 0 <= i < groups[g].len() && groups[g][i] == x;
        assert(all_writable(groups[g]));
    }
    assert forall|i: int| 0 <= i < lines.len() implies has_delimiter(#[trigger] lines[i])
        && entry_of(lines[i]) == flat[i] by {
        assert(flat.contains(flat[i]));
        lemma_writable_line(flat[i]);
    }
    assert(entries_of(lines) =~= flat);
}

/// No line of a text holds a line feed.
pub proof fn lemma_lines_hold_no_feed(text: Seq<char>)
    ensures
        forall|i: int|
            0 <= i < lines_of(text).len() ==> !(#[trigger] lines_of(text)[i]).contains('\n'),
    decreases text.len(),
{
    if text.len() > 0 {
        let at = position(text, '\n');
        lemma_position(text, '\n');
        if at < text.len() {
            let rest = text.skip(at + 1);
            lemma_lines_hold_no_feed(rest);
            let first = strip_cr(text.take(at));
            assert(!first.contains('\n')) by {
                if first.contains('\n') {
                    let j = choose|j: int| 0 <= j < first.len() && first[j] == '\n';
                    assert(text[j] == '\n');
                }
            }
            assert forall|i: int| 0 <= i < lines_of(text).len() implies !(
            #[trigger] lines_of(text)[i]).contains('\n') by {
                if i > 0 {
                    assert(lines_of(text)[i] == lines_of(rest)[i - 1]);
                }
            }
        } else {
            assert(!text.contains('\n'));
        }
    }
}

/// The entries that a text states have keys that hold no `=`, and neither
/// their keys nor their values hold a line feed.
pub proof fn lemma_parsed_entries(text: Seq<char>, entries: Seq<Entry>)
    requires
        parse_entries(text) == Ok::<Seq<Entry>, ParseError>(entries),
    ensures
        forall|i: int|
            0 <= i < entries.len() ==> {
                &&& !(#[trigger] entries[i]).key.contains('=')
                &&& !entries[i].key.contains('\n')
                &&& !entries[i].value.contains('\n')
            },
{
    let lines = entry_lines(text);
    lemma_lines_hold_no_feed(text);
    assert forall|i: int| 0 <= i < entries.len() implies {
        &&& !(#[trigger] entries[i]).key.contains('=')
        &&& !entries[i].key.contains('\n')
        &&& !entries[i].value.contains('\n')
    } by {
        let line = lines[i];
        let e = entries[i];
        assert(e == entry_of(line));
        assert(lines.contains(line));
        lines_of(text).lemma_filter_contains_rev(not_blank(), line);
        let k = choose|k: int| 0 <= k < lines_of(text).len() && lines_of(text)[k] == line;
        assert(!lines_of(text)[k].contains('\n'));
        let at = position(line, '=');
        lemma_position(line, '=');
        assert(has_delimiter(line));
        if e.key.contains('=') {
            let j = choose|j: int| 0 <= j < e.key.len() && e.key[j] == '=';
            assert(line[j] == '=');
        }
        if e.key.contains('\n') {
            let j = choose|j: int| 0 <= j < e.key.len() && e.key[j] == '\n';
            assert(line[j] == '\n');
        }
        if e.value.contains('\n') {
            let j = choose|j: int| 0 <= j < e.value.len() && e.value[j] == '\n';
            assert(line[at + 1 + j] == '\n');
        }
    }
}

/// No value of `entries` ends with a carriage return.
pub open spec fn values_end_clean(entries: Seq<Entry>) -> bool {
    forall|i: int|
        0 <= i < entries.len() ==> !((#[trigger] entries[i]).value.len() > 0
            && entries[i].value.last() == '\r')
}

/// What an env file holds once it was sorted: the sorted text, or what it
/// held before where it states no variable or cannot be read.
pub open spec fn text_after_sort(text: Seq<char>) -> Seq<char> {
    match sort_outcome(text) {
        Ok(Some(sorted)) => sorted,
        _ => text,
    }
}

/// Entries that were arranged and are arranged once more stay as they are.
pub proof fn lemma_arranged_again(entries: Seq<Entry>)
    ensures
        arranged(entries).flatten() == pick(entries, ranked(keys_of(entries))),
        arranged(entries).flatten().len() == entries.len(),
        arranged(arranged(entries).flatten()) == arranged(entries),
{
    let keys = keys_of(entries);
    let order = ranked(keys);
    lemma_place_groups_within(keys);
    lemma_ranked(keys);
    lemma_pick_flatten(entries, place_groups(keys));
    let again = pick(entries, order);
    assert(keys_of(again) =~= pick(keys, order));
    lemma_groups_again(keys, entries);
}

/// A file that states no variable is left as it is.
pub proof fn lemma_sort_leaves_empty(text: Seq<char>)
    requires
        parse_entries(text) == Ok::<Seq<Entry>, ParseError>(Seq::empty()),
    ensures
        sort_outcome(text) == Ok::<Option<Seq<char>>, ParseError>(None),
        text_after_sort(text) == text,
{
}

/// Sorting a sorted file changes nothing: where no value of `text` ends with
/// a carriage return, the text that sorting makes of `text` is left as it is
/// when it is sorted once more.
///
/// A carriage return at the end of a value is not kept by a second reading,
/// for it then stands right before a line feed and counts as a part of the
/// line's end.
pub proof fn lemma_sort_twice(text: Seq<char>)
    requires
        parse_entries(text) matches Ok(entries) ==> values_end_clean(entries),
    ensures
        text_after_sort(text_after_sort(text)) == text_after_sort(text),
{
    match parse_entries(text) {
        Ok(entries) => {
            if entries.len() > 0 {
                let groups = arranged(entries);
                let flat = groups.flatten();
                lemma_parsed_entries(text, entries);
                lemma_arranged_again(entries);
                let keys = keys_of(entries);
                lemma_place_groups_within(keys);
                assert forall|g: int| 0 <= g < groups.len() implies all_writable(
                    #[trigger] groups[g],
                ) by {
                    assert forall|i: int| 0 <= i < groups[g].len() implies writable(
                        #[trigger] groups[g][i],
                    ) by {
                        let p = place_groups(keys)[g][i];
                        assert(groups[g][i] == entries[p]);
                    }
                }
                lemma_render_reads_back(groups);
            }
        },
        Err(_) => {},
    }
}

/// The keys of the entries of each group.
pub open spec fn group_keys_of(groups: Seq<Seq<Entry>>) -> Seq<Seq<Seq<char>>> {
    Seq::new(groups.len(), |g: int| keys_of(groups[g]))
}

/// The keys of arranged entries are the groups of their keys: no group is
/// empty, the groups rise by their prefix, the keys of a group rise, and
/// there are as many groups as `group_count` says.
pub proof fn lemma_arranged_keys(entries: Seq<Entry>)
    ensures
        group_keys_of(arranged(entries)) == key_groups(keys_of(entries)),
        is_grouping(keys_of(entries), group_keys_of(arranged(entries))),
        arranged(entries).len() == group_count(keys_of(entries)),
{
    let keys = keys_of(entries);
    lemma_place_groups_within(keys);
    lemma_key_groups(keys);
    lemma_group_count(keys);
    assert(group_keys_of(arranged(entries)) =~~= key_groups(keys));
}

/// Arranging loses no entry and adds none: the groups together hold each
/// entry as often as it was given.
pub proof fn lemma_arranged_keeps_all(entries: Seq<Entry>)
    ensures
        arranged(entries).flatten().to_multiset() == entries.to_multiset(),
{
    let keys = keys_of(entries);
    lemma_arranged_again(entries);
    lemma_ranked(keys);
    lemma_pick_same_items(entries, ranked(keys), places(keys.len()));
    assert(pick(entries, places(keys.len())) =~= entries);
}

} // verus!
