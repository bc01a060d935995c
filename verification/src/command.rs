//! What the commands of the tool work out before they touch a file or the
//! store.

use vstd::prelude::*;
use vstd::slice::slice_subrange;
use vstd::string::{StrSliceExecFns, StringExecFns};
use crate::text::{chars_of, find_char, lemma_position, position, starts_with};

verus! {

/// The name and the value that `arg` states as `NAME=VALUE`: the name is
/// what stands before the first `=`, the value what stands between the first
/// `=` and the second, or the end of `arg` where there is no second.
pub open spec fn pair_of(arg: Seq<char>) -> (Seq<char>, Seq<char>) {
    let at = position(arg, '=');
    let rest = arg.skip(at + 1);
    (arg.take(at), rest.take(position(rest, '=')))
}

/// The variable that is to be added: `name` with `value` where a value is
/// given; otherwise what `name` states as `NAME=VALUE`, and nothing where
/// `name` holds no `=`.
pub open spec fn assignment_of(name: Seq<char>, value: Option<Seq<char>>) -> Option<
    (Seq<char>, Seq<char>),
> {
    match value {
        Some(given) => Some((name, given)),
        None => if position(name, '=') < name.len() {
            Some(pair_of(name))
        } else {
            None
        },
    }
}

/// The test "begins with `lead`".
pub open spec fn begins_with(lead: Seq<char>) -> spec_fn(Seq<char>) -> bool {
    |name: Seq<char>| lead.is_prefix_of(name)
}

/// The names that are listed: all of `names`, or where a lead is given those
/// that begin with it, in the order of `names`.
pub open spec fn listed(names: Seq<Seq<char>>, lead: Option<Seq<char>>) -> Seq<Seq<char>> {
    match lead {
        Some(lead) => names.filter(begins_with(lead)),
        None => names,
    }
}

/// What was given, as text.
pub open spec fn text_given(given: Option<&str>) -> Option<Seq<char>> {
    match given {
        Some(text) => Some(text@),
        None => None,
    }
}

/// What was worked out, as texts.
pub open spec fn texts_paired(pair: Option<(String, String)>) -> Option<(Seq<char>, Seq<char>)> {
    match pair {
        Some((name, value)) => Some((name@, value@)),
        None => None,
    }
}

/// Works out the variable that is to be added from what was given: a name
/// and a value, or a name alone that states both as `NAME=VALUE`. Gives
/// nothing where no value is given and the name holds no `=`.
pub fn assignment(name: &str, value: Option<&str>) -> (r: Option<(String, String)>)
    ensures
        texts_paired(r) == assignment_of(name@, text_given(value)),
{
    match value {
        Some(given) => Some((name.to_owned(), given.to_owned())),
        None => {
            let chars = chars_of(name);
            let n = chars.len();
            let at = find_char(chars.as_slice(), '=');
            if at < n {
                let rest = slice_subrange(chars.as_slice(), at + 1, n);
                let end = find_char(rest, '=');
                proof {
                    lemma_position(rest@, '=');
                    assert(rest@ =~= name@.skip(at + 1));
                    assert(name@.subrange(at + 1, at + 1 + end) =~= rest@.take(end as int));
                }
                let key = name.substring_char(0, at).to_owned();
                let val = name.substring_char(at + 1, at + 1 + end).to_owned();
                Some((key, val))
            } else {
                None
            }
        },
    }
}

/// The names that are listed: all of `names`, or where a lead is given those
/// that begin with it, in the order of `names`.
pub fn names_listed(names: &Vec<String>, lead: Option<&str>) -> (out: Vec<String>)
    ensures
        out.deep_view() == listed(names.deep_view(), text_given(lead)),
{
    let ghost all = names.deep_view();
    let mut out: Vec<String> = Vec::new();
    let mut i: usize = 0;
    match lead {
        None => {
            while i < names.len()
                invariant
                    i <= names.len(),
                    out.len() == i,
                    forall|j: int| 0 <= j < i ==> (#[trigger] out[j])@ == names[j]@,
                decreases names.len() - i,
            {
                out.push(names[i].clone());
                i = i + 1;
            }
            assert(out.deep_view() =~= all);
        },
        Some(lead) => {
            let wanted = chars_of(lead);
            let ghost keep = begins_with(lead@);
            proof {
                assert(all.take(0) =~= Seq::<Seq<char>>::empty());
                assert(all.take(0).filter(keep) =~= Seq::<Seq<char>>::empty()) by {
                    reveal(Seq::filter);
                }
                assert(out.deep_view() =~= all.take(0).filter(keep));
            }
            while i < names.len()
                invariant
                    all == names.deep_view(),
                    keep == begins_with(lead@),
                    wanted@ == lead@,
                    i <= names.len(),
                    out.deep_view() == all.take(i as int).filter(keep),
                decreases names.len() - i,
            {
                let name = chars_of(names[i].as_str());
                let ghost before = out.deep_view();
                proof {
                    all.take(i as int).lemma_filter_push(all[i as int], keep);
                    assert(all.take(i as int).push(all[i as int]) =~= all.take(i + 1));
                }
                if starts_with(name.as_slice(), wanted.as_slice()) {
                    out.push(names[i].clone());
                    assert(out.deep_view() =~= before.push(all[i as int]));
                }
                i = i + 1;
            }
            assert(all.take(names.len() as int) =~= all);
        },
    }
    out
}

} // verus!
