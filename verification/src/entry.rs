//! One variable of an env file: a line `KEY=VALUE`.

use vstd::prelude::*;
use vstd::string::{StrSliceExecFns, StringExecFns};
use crate::text::{chars_of, find_char, lemma_position_found, position};

verus! {

/// A variable as a pair of texts.
pub struct Entry {
    pub key: Seq<char>,
    pub value: Seq<char>,
}

/// A variable read from a line of an env file.
#[derive(Clone, Debug, PartialEq, Eq)]
pub struct EnvVar {
    pub key: String,
    pub value: String,
}

/// Why a text is no env file.
#[derive(Clone, Copy, Debug, PartialEq, Eq, Structural)]
pub enum ParseError {
    /// A line that is not blank holds no `=`.
    MissingDelimiter,
}

impl View for EnvVar {
    type V = Entry;

    open spec fn view(&self) -> Entry {
        Entry { key: self.key@, value: self.value@ }
    }
}

impl DeepView for EnvVar {
    type V = Entry;

    open spec fn deep_view(&self) -> Entry {
        self@
    }
}

/// `line` holds a `=`.
pub open spec fn has_delimiter(line: Seq<char>) -> bool {
    position(line, '=') < line.len()
}

/// The variable that `line` states: its key is what stands before the first
/// `=`, its value all that follows it.
pub open spec fn entry_of(line: Seq<char>) -> Entry {
    let i = position(line, '=');
    Entry { key: line.take(i), value: line.skip(i + 1) }
}

/// The line that states `entry`.
pub open spec fn line_of(entry: Entry) -> Seq<char> {
    entry.key + seq!['='] + entry.value
}

/// What reading `line` gives.
pub open spec fn parse_line(line: Seq<char>) -> Result<Entry, ParseError> {
    if has_delimiter(line) {
        Ok(entry_of(line))
    } else {
        Err(ParseError::MissingDelimiter)
    }
}

/// A line written for an entry whose key holds no `=` reads back as that
/// entry.
pub proof fn lemma_line_reads_back(entry: Entry)
    requires
        !entry.key.contains('='),
    ensures
        parse_line(line_of(entry)) == Ok::<Entry, ParseError>(entry),
{
    let line = line_of(entry);
    let i = entry.key.len() as int;
    assert(line[i] == '=');
    assert forall|j: int| 0 <= j < i implies line[j] != '=' by {
        assert(line[j] == entry.key[j]);
        assert(entry.key.contains(line[j]));
    }
    lemma_position_found(line, '=', i);
    assert(line.take(i) =~= entry.key);
    assert(line.skip(i + 1) =~= entry.value);
}

impl EnvVar {
    /// Reads a variable from `line`, which is split at its first `=`.
    pub fn from_str(line: &str) -> (r: Result<EnvVar, ParseError>)
        ensures
            match r {
                Ok(var) => parse_line(line@) == Ok::<Entry, ParseError>(var@),
                Err(e) => parse_line(line@) == Err::<Entry, ParseError>(e),
            },
    {
        let chars = chars_of(line);
        let i = find_char(chars.as_slice(), '=');
        if i < chars.len() {
            let key = line.substring_char(0, i).to_owned();
            let value = line.substring_char(i + 1, chars.len()).to_owned();
            Ok(EnvVar { key, value })
        } else {
            Err(ParseError::MissingDelimiter)
        }
    }

    /// Writes the variable as a line, without a line end.
    pub fn to_string(&self) -> (line: String)
        ensures
            line@ == line_of(self@),
    {
        let mut line = self.key.clone();
        proof {
            reveal_strlit("=");
        }
        line.append("=");
        line.append(self.value.as_str());
        assert("="@ =~= seq!['=']);
        line
    }

    /// A copy of the variable.
    pub fn duplicate(&self) -> (copy: EnvVar)
        ensures
            copy@ == self@,
    {
        EnvVar { key: self.key.clone(), value: self.value.clone() }
    }
}

} // verus!
