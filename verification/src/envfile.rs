//! Env files as text: reading their variables, writing them grouped and
//! sorted, and adding a variable.
//!
//! A file is a run of lines, each ended by a line feed or by a carriage
//! return and a line feed; the last line may go without. Lines of white space
//! are skipped. Every other line states one variable as `KEY=VALUE`.

use vstd::prelude::*;
use vstd::slice::slice_subrange;
use vstd::string::{StrSliceExecFns, StringExecFns};
use crate::entry::{entry_of, has_delimiter, line_of, Entry, EnvVar, ParseError};
use crate::group::{as_place_groups, as_places, group_places, pick_groups, place_groups, rows};
use crate::envfile_facts::{group_keys_of, lemma_arranged_keeps_all, lemma_arranged_keys};
use crate::group_facts::{group_count, is_grouping};
use crate::text::{chars_of, find_char, is_blank, is_blank_line, lemma_position, position};

verus! {

/// `line` without the carriage return at its end, if it has one.
pub open spec fn strip_cr(line: Seq<char>) -> Seq<char> {
    if line.len() > 0 && line.last() == '\r' {
        line.drop_last()
    } else {
        line
    }
}

/// The lines of `text`. A line ends at a line feed, which is no part of it,
/// nor is a carriage return that stands right before that line feed. What
/// follows the last line feed is a line too, unless it is empty.
pub open spec fn lines_of(text: Seq<char>) -> Seq<Seq<char>>
    decreases text.len(),
{
    if text.len() == 0 {
        Seq::empty()
    } else {
        let i = position(text, '\n');
        if 0 <= i < text.len() {
            seq![strip_cr(text.take(i))] + lines_of(text.skip(i + 1))
        } else {
            seq![text]
        }
    }
}

/// The test "is not blank".
pub open spec fn not_blank() -> spec_fn(Seq<char>) -> bool {
    |line: Seq<char>| !is_blank(line)
}

/// The lines of `text` that are not blank.
pub open spec fn entry_lines(text: Seq<char>) -> Seq<Seq<char>> {
    lines_of(text).filter(not_blank())
}

/// Every one of `lines` holds a `=`.
pub open spec fn all_delimited(lines: Seq<Seq<char>>) -> bool {
    forall|i: int| 0 <= i < lines.len() ==> has_delimiter(#[trigger] lines[i])
}

/// The variables that `lines` state.
pub open spec fn entries_of(lines: Seq<Seq<char>>) -> Seq<Entry> {
    lines.map_values(|line: Seq<char>| entry_of(line))
}

/// What reading `text` gives: the variables of its lines that are not blank,
/// in order; or an error where one of these lines holds no `=`.
pub open spec fn parse_entries(text: Seq<char>) -> Result<Seq<Entry>, ParseError> {
    if all_delimited(entry_lines(text)) {
        Ok(entries_of(entry_lines(text)))
    } else {
        Err(ParseError::MissingDelimiter)
    }
}

/// The keys of `entries`.
pub open spec fn keys_of(entries: Seq<Entry>) -> Seq<Seq<char>> {
    entries.map_values(|e: Entry| e.key)
}

/// The lines of `text` from place `from` on are its first line and the lines
/// of what follows that line.
proof fn lemma_lines_step(text: Seq<char>, from: int)
    requires
        0 <= from < text.len(),
    ensures
        ({
            let rest = text.skip(from);
            let i = position(rest, '\n');
            &&& 0 <= i <= rest.len()
            &&& i < rest.len() ==> lines_of(rest) == seq![
                strip_cr(text.subrange(from, from + i)),
            ] + lines_of(text.skip(from + i + 1))
            &&& i == rest.len() ==> lines_of(rest) == seq![rest]
        }),
{
    let rest = text.skip(from);
    let i = position(rest, '\n');
    lemma_position(rest, '\n');
    if i < rest.len() {
        assert(rest.take(i) =~= text.subrange(from, from + i));
        assert(rest.skip(i + 1) =~= text.skip(from + i + 1));
    }
}

/// Reads the variables of an env file from its contents.
///
/// Lines that hold only white space are skipped. Each other line is split at
/// its first `=`; a line without one makes the whole text an error.
pub fn read_env_file(contents: &str) -> (r: Result<Vec<EnvVar>, ParseError>)
    ensures
        match r {
            Ok(vars) => parse_entries(contents@) == Ok::<Seq<Entry>, ParseError>(vars.deep_view()),
            Err(e) => parse_entries(contents@) == Err::<Seq<Entry>, ParseError>(e),
        },
{
    let chars = chars_of(contents);
    let n = chars.len();
    let ghost text = contents@;
    let ghost mut done: Seq<Seq<char>> = Seq::empty();
    let mut vars: Vec<EnvVar> = Vec::new();
    let mut from: usize = 0;
    proof {
        assert(text.skip(0) =~= text);
        assert(done + lines_of(text) =~= lines_of(text));
        assert(done.filter(not_blank()) =~= Seq::<Seq<char>>::empty()) by {
            reveal(Seq::filter);
        }
        assert(vars.deep_view() =~= entries_of(done.filter(not_blank())));
    }
    while from < n
        invariant
            text == contents@,
            chars@ == text,
            n == chars.len(),
            from <= n,
            lines_of(text) == done + lines_of(text.skip(from as int)),
            all_delimited(done.filter(not_blank())),
            vars.deep_view() == entries_of(done.filter(not_blank())),
        decreases n - from,
    {
        let rest = slice_subrange(chars.as_slice(), from, n);
        let i = find_char(rest, '\n');
        let mut end = from + i;
        let next = if i < rest.len() {
            from + i + 1
        } else {
            n
        };
        proof {
            lemma_lines_step(text, from as int);
            assert(rest@ =~= text.skip(from as int));
        }
        if i < rest.len() && i > 0 && chars[end - 1] == '\r' {
            end = end - 1;
        }
        let line = slice_subrange(chars.as_slice(), from, end);
        let ghost kept = done.filter(not_blank());
        proof {
            if i < rest.len() {
                let whole = text.subrange(from as int, from + i);
                assert(line@ =~= strip_cr(whole)) by {
                    if i > 0 {
                        assert(whole.last() == chars@[from + i - 1]);
                    }
                }
            } else {
                assert(line@ =~= rest@);
                assert(text.skip(n as int) =~= Seq::<char>::empty());
            }
            assert(lines_of(text) =~= done.push(line@) + lines_of(text.skip(next as int)));
            done.lemma_filter_push(line@, not_blank());
        }
        if !is_blank_line(line) {
            let at = find_char(line, '=');
            if at == line.len() {
                proof {
                    let tail = lines_of(text.skip(next as int));
                    Seq::filter_distributes_over_add(done.push(line@), tail, not_blank());
                    let all = entry_lines(text);
                    assert(all[kept.len() as int] == line@);
                    assert(!has_delimiter(all[kept.len() as int]));
                }
                return Err(ParseError::MissingDelimiter);
            }
            let key = contents.substring_char(from, from + at).to_owned();
            let value = contents.substring_char(from + at + 1, end).to_owned();
            let ghost before = vars.deep_view();
            vars.push(EnvVar { key, value });
            proof {
                assert(text.subrange(from as int, from + at) =~= line@.take(at as int));
                assert(text.subrange(from + at + 1, end as int) =~= line@.skip(at + 1));
                assert(vars.deep_view() =~= before.push(entry_of(line@)));
                assert(entries_of(kept.push(line@)) =~= before.push(entry_of(line@)));
            }
        }
        proof {
            done = done.push(line@);
        }
        from = next;
    }
    proof {
        assert(text.skip(n as int) =~= Seq::<char>::empty());
        assert(done + lines_of(text.skip(n as int)) =~= done);
    }
    Ok(vars)
}

/// The variables of `entries` in groups: the groups that their keys fall
/// into, each key with its variable. Variables with one key keep the order
/// in which `entries` holds them.
pub open spec fn arranged(entries: Seq<Entry>) -> Seq<Seq<Entry>> {
    pick_groups(entries, place_groups(keys_of(entries)))
}

/// The lines that state `entries`, each with a line feed behind it.
pub open spec fn lines_text(entries: Seq<Entry>) -> Seq<char>
    decreases entries.len(),
{
    if entries.len() == 0 {
        Seq::empty()
    } else {
        lines_text(entries.drop_last()) + line_of(entries.last()) + seq!['\n']
    }
}

/// The text of `groups`: the lines of each group, and an empty line behind
/// each group.
pub open spec fn render(groups: Seq<Seq<Entry>>) -> Seq<char>
    decreases groups.len(),
{
    if groups.len() == 0 {
        Seq::empty()
    } else {
        render(groups.drop_last()) + lines_text(groups.last()) + seq!['\n']
    }
}

/// The text of an env file that states `entries`, grouped and sorted.
pub open spec fn sorted_text(entries: Seq<Entry>) -> Seq<char> {
    render(arranged(entries))
}

/// Groups the variables by the prefix of their key and sorts them by key.
///
/// Every variable comes out once. Variables with one key stay in the order
/// in which they were given.
pub fn arrange(vars: &Vec<EnvVar>) -> (groups: Vec<Vec<EnvVar>>)
    ensures
        groups.deep_view() == arranged(vars.deep_view()),
        groups.deep_view().flatten().to_multiset() == vars.deep_view().to_multiset(),
        is_grouping(keys_of(vars.deep_view()), group_keys_of(groups.deep_view())),
        groups.len() == group_count(keys_of(vars.deep_view())),
{
    let mut chars: Vec<Vec<char>> = Vec::new();
    let mut k: usize = 0;
    while k < vars.len()
        invariant
            k <= vars.len(),
            chars.len() == k,
            forall|j: int| 0 <= j < k ==> (#[trigger] chars[j])@ == vars[j].key@,
        decreases vars.len() - k,
    {
        chars.push(chars_of(vars[k].key.as_str()));
        k = k + 1;
    }
    assert(rows(chars@) =~= keys_of(vars.deep_view()));
    let at = group_places(&chars);
    let ghost want = arranged(vars.deep_view());
    let mut groups: Vec<Vec<EnvVar>> = Vec::new();
    let mut g: usize = 0;
    while g < at.len()
        invariant
            chars.len() == vars.len(),
            as_place_groups(at@) == place_groups(keys_of(vars.deep_view())),
            want == arranged(vars.deep_view()),
            forall|g: int, i: int|
                0 <= g < at.len() && 0 <= i < at[g].len() ==> (#[trigger] at[g][i]) < chars.len(),
            g <= at.len(),
            groups.len() == g,
            forall|h: int| 0 <= h < g ==> (#[trigger] groups[h]).deep_view() == want[h],
        decreases at.len() - g,
    {
        let mut group: Vec<EnvVar> = Vec::new();
        let mut i: usize = 0;
        assert(as_place_groups(at@)[g as int] == as_places(at[g as int]@));
        while i < at[g].len()
            invariant
                chars.len() == vars.len(),
                g < at.len(),
                forall|g: int, i: int|
                    0 <= g < at.len() && 0 <= i < at[g].len() ==> (#[trigger] at[g][i])
                        < chars.len(),
                i <= at[g as int].len(),
                group.len() == i,
                forall|j: int|
                    0 <= j < i ==> (#[trigger] group[j])@ == vars[at[g as int][j] as int]@,
            decreases at[g as int].len() - i,
        {
            group.push(vars[at[g][i]].duplicate());
            i = i + 1;
        }
        assert(group.deep_view() =~= want[g as int]);
        groups.push(group);
        g = g + 1;
    }
    assert(groups.deep_view() =~= want);
    proof {
        lemma_arranged_keys(vars.deep_view());
        lemma_arranged_keeps_all(vars.deep_view());
    }
    groups
}

/// Writes the groups out: each variable on a line of its own, and an empty
/// line behind each group.
pub fn render_groups(groups: &Vec<Vec<EnvVar>>) -> (text: String)
    ensures
        text@ == render(groups.deep_view()),
{
    let ghost all = groups.deep_view();
    let mut text = String::new();
    let mut g: usize = 0;
    proof {
        reveal_strlit("\n");
        assert("\n"@ =~= seq!['\n']);
        assert(all.take(0) =~= Seq::<Seq<Entry>>::empty());
    }
    while g < groups.len()
        invariant
            all == groups.deep_view(),
            "\n"@ == seq!['\n'],
            g <= groups.len(),
            text@ == render(all.take(g as int)),
        decreases groups.len() - g,
    {
        let group = &groups[g];
        let ghost lines = group.deep_view();
        let mut i: usize = 0;
        proof {
            assert(lines.take(0) =~= Seq::<Entry>::empty());
            assert(text@ + lines_text(lines.take(0)) =~= text@);
        }
        while i < group.len()
            invariant
                lines == group.deep_view(),
                "\n"@ == seq!['\n'],
                i <= group.len(),
                text@ == render(all.take(g as int)) + lines_text(lines.take(i as int)),
            decreases group.len() - i,
        {
            let line = group[i].to_string();
            proof {
                assert(lines.take(i + 1).drop_last() =~= lines.take(i as int));
                assert(lines.take(i + 1).last() == group[i as int]@);
            }
            text.append(line.as_str());
            text.append("\n");
            i = i + 1;
        }
        text.append("\n");
        proof {
            assert(lines.take(group.len() as int) =~= lines);
            assert(all.take(g + 1).drop_last() =~= all.take(g as int));
            assert(all.take(g + 1).last() == lines);
        }
        g = g + 1;
    }
    proof {
        assert(all.take(groups.len() as int) =~= all);
    }
    text
}

/// What sorting makes of the contents of an env file: the text that takes
/// their place, or nothing where the file is to stay as it is.
pub open spec fn sort_outcome(text: Seq<char>) -> Result<Option<Seq<char>>, ParseError> {
    match parse_entries(text) {
        Err(e) => Err(e),
        Ok(entries) => if entries.len() == 0 {
            Ok(None)
        } else {
            Ok(Some(sorted_text(entries)))
        },
    }
}

/// Sorts the contents of an env file.
///
/// Returns the new contents: the variables grouped by the prefix of their
/// key, the groups and the variables of each group in dictionary order, an
/// empty line behind each group. Returns `None` where the file states no
/// variable: it is then left as it is. A line that is not blank and holds no
/// `=` is an error.
pub fn sort_env_file(contents: &str) -> (r: Result<Option<String>, ParseError>)
    ensures
        match r {
            Ok(Some(text)) => sort_outcome(contents@) == Ok::<Option<Seq<char>>, ParseError>(
                Some(text@),
            ),
            Ok(None) => sort_outcome(contents@) == Ok::<Option<Seq<char>>, ParseError>(None),
            Err(e) => sort_outcome(contents@) == Err::<Option<Seq<char>>, ParseError>(e),
        },
{
    match read_env_file(contents) {
        Err(e) => Err(e),
        Ok(vars) => {
            if vars.len() == 0 {
                Ok(None)
            } else {
                let groups = arrange(&vars);
                Ok(Some(render_groups(&groups)))
            }
        },
    }
}

/// The contents of an env file with one more line, `KEY=VALUE`, at its end.
pub fn add_to_env_file(contents: &str, key: &str, value: &str) -> (text: String)
    ensures
        text@ == contents@ + key@ + seq!['='] + value@ + seq!['\n'],
{
    let mut text = contents.to_owned();
    proof {
        reveal_strlit("=");
        reveal_strlit("\n");
        assert("="@ =~= seq!['=']);
        assert("\n"@ =~= seq!['\n']);
    }
    text.append(key);
    text.append("=");
    text.append(value);
    text.append("\n");
    text
}

} // verus!
