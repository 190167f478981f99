//! Grammar parser for the drive-database text format.
//!
//! The database is an array of records embedded in C source: each entry is
//! five double-quoted strings inside braces, entries are separated by commas
//! (a trailing comma is allowed), and whitespace includes line and block
//! comments. Adjacent string literals concatenate, as in C.
//!
//! The parser is specified by a functional model over `Seq<char>`: each
//! executable function returns exactly what the corresponding `spec fn`
//! denotes, and `database` either returns the complete entry sequence (with
//! reserved `$`-entries dropped) or fails without any partial result.

use vstd::prelude::*;

verus! {

/// One row of the parsed database.
#[derive(Debug, PartialEq)]
pub struct Entry {
    /// Informal string about the model family/series of a device.
    pub family: String,
    /// POSIX extended regular expression to match the model of a device.
    pub model: String,
    /// POSIX extended regular expression to match a device's firmware;
    /// optional if empty.
    pub firmware: String,
    /// A message that may be displayed for matching drives.
    pub warning: String,
    /// String with vendor-specific attribute (`-v`) and firmware bug fix
    /// (`-F`) options, with the same syntax as on the command line.
    pub presets: String,
}

/// Mathematical model of an [`Entry`]: the five fields as char sequences.
#[verifier::ext_equal]
pub struct EntryModel {
    pub family: Seq<char>,
    pub model: Seq<char>,
    pub firmware: Seq<char>,
    pub warning: Seq<char>,
    pub presets: Seq<char>,
}

impl View for Entry {
    type V = EntryModel;

    open spec fn view(&self) -> EntryModel {
        EntryModel {
            family: self.family@,
            model: self.model@,
            firmware: self.firmware@,
            warning: self.warning@,
            presets: self.presets@,
        }
    }
}

impl DeepView for Entry {
    type V = EntryModel;

    open spec fn deep_view(&self) -> EntryModel {
        self.view()
    }
}

impl Clone for Entry {
    fn clone(&self) -> (r: Self)
        ensures
            r == *self,
    {
        Entry {
            family: self.family.clone(),
            model: self.model.clone(),
            firmware: self.firmware.clone(),
            warning: self.warning.clone(),
            presets: self.presets.clone(),
        }
    }
}

/// Malformed database text, with a best-effort position (in characters) of
/// the offending spot.
#[derive(Debug, Clone, PartialEq)]
pub struct SyntaxError {
    pub position: usize,
}

/// The whitespace characters between tokens.
pub open spec fn is_space(c: char) -> bool {
    c == ' ' || c == '\t' || c == '\r' || c == '\n'
}

/// Index of the first occurrence of `c` at or after `i`, if any.
pub open spec fn find_from(s: Seq<char>, i: int, c: char) -> Option<int>
    decreases s.len() - i,
{
    if i < 0 || i >= s.len() {
        None
    } else if s[i] == c {
        Some(i)
    } else {
        find_from(s, i + 1, c)
    }
}

/// Index of the first occurrence of the two-character terminator `*/` at or
/// after `i`, if any.
pub open spec fn find_block_end(s: Seq<char>, i: int) -> Option<int>
    decreases s.len() - i,
{
    if i < 0 || i + 1 >= s.len() {
        None
    } else if s[i] == '*' && s[i + 1] == '/' {
        Some(i)
    } else {
        find_block_end(s, i + 1)
    }
}

proof fn lemma_find_from(s: Seq<char>, i: int, c: char)
    requires
        0 <= i <= s.len(),
    ensures
        match find_from(s, i, c) {
            Some(j) => i <= j < s.len() && s[j] == c,
            None => true,
        },
    decreases s.len() - i,
{
    if i < s.len() && s[i] != c {
        lemma_find_from(s, i + 1, c);
    }
}

proof fn lemma_find_block_end(s: Seq<char>, i: int)
    requires
        0 <= i <= s.len(),
    ensures
        match find_block_end(s, i) {
            Some(j) => i <= j && j + 1 < s.len() && s[j] == '*' && s[j + 1] == '/',
            None => true,
        },
    decreases s.len() - i,
{
    if i + 1 < s.len() && !(s[i] == '*' && s[i + 1] == '/') {
        lemma_find_block_end(s, i + 1);
    }
}

/// Position after skipping whitespace, line comments (`//` up to and
/// including a newline) and block comments (`/*` to `*/`) starting at `i`.
/// A comment without its terminator is not consumed.
pub open spec fn skip_ws(s: Seq<char>, i: int) -> int
    decreases s.len() - i,
    via skip_ws_decreases
{
    if i < 0 || i >= s.len() {
        i
    } else if is_space(s[i]) {
        skip_ws(s, i + 1)
    } else if i + 1 < s.len() && s[i] == '/' && s[i + 1] == '/' {
        match find_from(s, i + 2, '\n') {
            Some(j) => skip_ws(s, j + 1),
            None => i,
        }
    } else if i + 1 < s.len() && s[i] == '/' && s[i + 1] == '*' {
        match find_block_end(s, i + 2) {
            Some(j) => skip_ws(s, j + 2),
            None => i,
        }
    } else {
        i
    }
}

#[via_fn]
proof fn skip_ws_decreases(s: Seq<char>, i: int) {
    if 0 <= i && i + 1 < s.len() && s[i] == '/' && s[i + 1] == '/' {
        lemma_find_from(s, i + 2, '\n');
    }
    if 0 <= i && i + 1 < s.len() && s[i] == '/' && s[i + 1] == '*' {
        lemma_find_block_end(s, i + 2);
    }
}

proof fn lemma_skip_ws(s: Seq<char>, i: int)
    requires
        0 <= i <= s.len(),
    ensures
        i <= skip_ws(s, i) <= s.len(),
    decreases s.len() - i,
{
    if i < s.len() {
        if is_space(s[i]) {
            lemma_skip_ws(s, i + 1);
        } else if i + 1 < s.len() && s[i] == '/' && s[i + 1] == '/' {
            lemma_find_from(s, i + 2, '\n');
            if let Some(j) = find_from(s, i + 2, '\n') {
                lemma_skip_ws(s, j + 1);
            }
        } else if i + 1 < s.len() && s[i] == '/' && s[i + 1] == '*' {
            lemma_find_block_end(s, i + 2);
            if let Some(j) = find_block_end(s, i + 2) {
                lemma_skip_ws(s, j + 2);
            }
        }
    }
}

/// The characters that may follow a backslash in a string literal.
pub open spec fn is_escapable(c: char) -> bool {
    c == '\\' || c == '"' || c == '\'' || c == 'n' || c == 'r' || c == 't'
}

/// The character denoted by the escape sequence `\c`.
pub open spec fn unescape(c: char) -> char {
    if c == 'n' {
        '\n'
    } else if c == 'r' {
        '\r'
    } else if c == 't' {
        '\t'
    } else {
        c
    }
}

/// Greedily consume string-literal body characters starting at `i`:
/// any character other than newline, backslash and quote stands for itself,
/// and a backslash followed by an escapable character stands for the escaped
/// character. Returns the stop position and the denoted characters.
pub open spec fn string_body(s: Seq<char>, i: int) -> (int, Seq<char>)
    decreases s.len() - i,
{
    if i < 0 || i >= s.len() {
        (i, Seq::<char>::empty())
    } else if s[i] != '\n' && s[i] != '\\' && s[i] != '"' {
        let r = string_body(s, i + 1);
        (r.0, seq![s[i]] + r.1)
    } else if s[i] == '\\' && i + 1 < s.len() && is_escapable(s[i + 1]) {
        let r = string_body(s, i + 2);
        (r.0, seq![unescape(s[i + 1])] + r.1)
    } else {
        (i, Seq::<char>::empty())
    }
}

proof fn lemma_string_body(s: Seq<char>, i: int)
    requires
        0 <= i <= s.len(),
    ensures
        i <= string_body(s, i).0 <= s.len(),
    decreases s.len() - i,
{
    if i < s.len() {
        if s[i] != '\n' && s[i] != '\\' && s[i] != '"' {
            lemma_string_body(s, i + 1);
        } else if s[i] == '\\' && i + 1 < s.len() && is_escapable(s[i + 1]) {
            lemma_string_body(s, i + 2);
        }
    }
}

/// One double-quoted string literal starting at `i`: the opening quote, a
/// run of body characters, and the closing quote. `None` when `i` does not
/// hold a literal (in particular when the literal is unterminated).
pub open spec fn string_literal(s: Seq<char>, i: int) -> Option<(int, Seq<char>)> {
    if 0 <= i && i < s.len() && s[i] == '"' {
        let r = string_body(s, i + 1);
        if r.0 < s.len() && s[r.0] == '"' {
            Some((r.0 + 1, r.1))
        } else {
            None
        }
    } else {
        None
    }
}

proof fn lemma_string_literal(s: Seq<char>, i: int)
    requires
        0 <= i <= s.len(),
    ensures
        match string_literal(s, i) {
            Some(r) => i + 2 <= r.0 <= s.len(),
            None => true,
        },
{
    if 0 <= i && i < s.len() && s[i] == '"' {
        lemma_string_body(s, i + 1);
    }
}

/// Further string literals, each preceded by whitespace, concatenated.
/// Stops (without consuming trailing whitespace) before the first position
/// that does not continue with a literal.
pub open spec fn string_more(s: Seq<char>, i: int) -> (int, Seq<char>)
    decreases s.len() - i,
    via string_more_decreases
{
    if 0 <= i <= s.len() {
        let j = skip_ws(s, i);
        match string_literal(s, j) {
            Some((k, part)) => {
                let r = string_more(s, k);
                (r.0, part + r.1)
            },
            None => (i, Seq::<char>::empty()),
        }
    } else {
        (i, Seq::<char>::empty())
    }
}

#[via_fn]
proof fn string_more_decreases(s: Seq<char>, i: int) {
    if 0 <= i <= s.len() {
        lemma_skip_ws(s, i);
        lemma_string_literal(s, skip_ws(s, i));
    }
}

proof fn lemma_string_more(s: Seq<char>, i: int)
    requires
        0 <= i <= s.len(),
    ensures
        i <= string_more(s, i).0 <= s.len(),
    decreases s.len() - i,
{
    lemma_skip_ws(s, i);
    let j = skip_ws(s, i);
    lemma_string_literal(s, j);
    if let Some((k, part)) = string_literal(s, j) {
        lemma_string_more(s, k);
    }
}

/// A logical string: one or more adjacent string literals separated by
/// whitespace, their contents concatenated.
pub open spec fn string_value(s: Seq<char>, i: int) -> Option<(int, Seq<char>)> {
    match string_literal(s, i) {
        Some((j, first)) => {
            let r = string_more(s, j);
            Some((r.0, first + r.1))
        },
        None => None,
    }
}

proof fn lemma_string_value(s: Seq<char>, i: int)
    requires
        0 <= i <= s.len(),
    ensures
        match string_value(s, i) {
            Some(r) => i + 2 <= r.0 <= s.len(),
            None => true,
        },
{
    lemma_string_literal(s, i);
    if let Some((j, first)) = string_literal(s, i) {
        lemma_string_more(s, j);
    }
}

/// A comma with optional whitespace on both sides.
pub open spec fn comma(s: Seq<char>, i: int) -> Option<int> {
    let j = skip_ws(s, i);
    if 0 <= j && j < s.len() && s[j] == ',' {
        Some(skip_ws(s, j + 1))
    } else {
        None
    }
}

proof fn lemma_comma(s: Seq<char>, i: int)
    requires
        0 <= i <= s.len(),
    ensures
        match comma(s, i) {
            Some(j) => i + 1 <= j <= s.len(),
            None => true,
        },
{
    lemma_skip_ws(s, i);
    let j = skip_ws(s, i);
    if 0 <= j && j < s.len() && s[j] == ',' {
        lemma_skip_ws(s, j + 1);
    }
}

/// One database entry: five comma-separated strings inside braces.
pub open spec fn entry(s: Seq<char>, i: int) -> Option<(int, EntryModel)> {
    if 0 <= i && i < s.len() && s[i] == '{' {
        let j0 = skip_ws(s, i + 1);
        match string_value(s, j0) {
            None => None,
            Some((p1, family)) => match comma(s, p1) {
                None => None,
                Some(q1) => match string_value(s, q1) {
                    None => None,
                    Some((p2, model)) => match comma(s, p2) {
                        None => None,
                        Some(q2) => match string_value(s, q2) {
                            None => None,
                            Some((p3, firmware)) => match comma(s, p3) {
                                None => None,
                                Some(q3) => match string_value(s, q3) {
                                    None => None,
                                    Some((p4, warning)) => match comma(s, p4) {
                                        None => None,
                                        Some(q4) => match string_value(s, q4) {
                                            None => None,
                                            Some((p5, presets)) => {
                                                let j5 = skip_ws(s, p5);
                                                if j5 < s.len() && s[j5] == '}' {
                                                    Some(
                                                        (
                                                            j5 + 1,
                                                            EntryModel {
                                                                family,
                                                                model,
                                                                firmware,
                                                                warning,
                                                                presets,
                                                            },
                                                        ),
                                                    )
                                                } else {
                                                    None
                                                }
                                            },
                                        },
                                    },
                                },
                            },
                        },
                    },
                },
            },
        }
    } else {
        None
    }
}

proof fn lemma_entry(s: Seq<char>, i: int)
    requires
        0 <= i <= s.len(),
    ensures
        match entry(s, i) {
            Some(r) => i + 1 <= r.0 <= s.len(),
            None => true,
        },
{
    if 0 <= i && i < s.len() && s[i] == '{' {
        lemma_skip_ws(s, i + 1);
        let j0 = skip_ws(s, i + 1);
        lemma_string_value(s, j0);
        if let Some((p1, _)) = string_value(s, j0) {
            lemma_comma(s, p1);
            if let Some(q1) = comma(s, p1) {
                lemma_string_value(s, q1);
                if let Some((p2, _)) = string_value(s, q1) {
                    lemma_comma(s, p2);
                    if let Some(q2) = comma(s, p2) {
                        lemma_string_value(s, q2);
                        if let Some((p3, _)) = string_value(s, q2) {
                            lemma_comma(s, p3);
                            if let Some(q3) = comma(s, p3) {
                                lemma_string_value(s, q3);
                                if let Some((p4, _)) = string_value(s, q3) {
                                    lemma_comma(s, p4);
                                    if let Some(q4) = comma(s, p4) {
                                        lemma_string_value(s, q4);
                                        if let Some((p5, _)) = string_value(s, q4) {
                                            lemma_skip_ws(s, p5);
                                        }
                                    }
                                }
                            }
                        }
                    }
                }
            }
        }
    }
}

/// Entries after the first: each preceded by a comma separator. A comma
/// followed by no further entry is consumed as a trailing comma.
pub open spec fn entries_more(s: Seq<char>, i: int) -> (int, Seq<EntryModel>)
    decreases s.len() - i,
    via entries_more_decreases
{
    if 0 <= i <= s.len() {
        match comma(s, i) {
            None => (i, Seq::<EntryModel>::empty()),
            Some(j) => match entry(s, j) {
                Some((k, e)) => {
                    let r = entries_more(s, k);
                    (r.0, seq![e] + r.1)
                },
                None => (j, Seq::<EntryModel>::empty()),
            },
        }
    } else {
        (i, Seq::<EntryModel>::empty())
    }
}

#[via_fn]
proof fn entries_more_decreases(s: Seq<char>, i: int) {
    if 0 <= i <= s.len() {
        lemma_comma(s, i);
        if let Some(j) = comma(s, i) {
            lemma_entry(s, j);
        }
    }
}

/// The whole database text: optional leading whitespace, one or more
/// comma-separated entries, an optional trailing comma, optional trailing
/// whitespace, end of input. `None` when the text is malformed.
pub open spec fn database_model(s: Seq<char>) -> Option<Seq<EntryModel>> {
    let i0 = skip_ws(s, 0);
    match entry(s, i0) {
        None => None,
        Some((i1, first)) => {
            let r = entries_more(s, i1);
            if skip_ws(s, r.0) == s.len() {
                Some(seq![first] + r.1)
            } else {
                None
            }
        },
    }
}

/// Whether an entry is a reserved marker: its family starts with `$`.
pub open spec fn is_reserved(e: EntryModel) -> bool {
    e.family.len() > 0 && e.family[0] == '$'
}

/// The subsequence of entries that are not reserved, in order.
pub open spec fn drop_reserved(es: Seq<EntryModel>) -> Seq<EntryModel> {
    es.filter(|e: EntryModel| !is_reserved(e))
}

proof fn lemma_drop_reserved_push(es: Seq<EntryModel>, e: EntryModel)
    ensures
        drop_reserved(es.push(e)) == if !is_reserved(e) {
            drop_reserved(es).push(e)
        } else {
            drop_reserved(es)
        },
{
    reveal_with_fuel(Seq::filter, 2);
    assert(es.push(e).drop_last() =~= es);
    assert(es.push(e).last() == e);
}

/// The parsed entries with reserved `$`-entries dropped.
pub open spec fn database_entries(s: Seq<char>) -> Option<Seq<EntryModel>> {
    match database_model(s) {
        Some(es) => Some(drop_reserved(es)),
        None => None,
    }
}

/// Law: whatever the database text held, no parsed database ever contains
/// an entry whose family starts with `$`.
pub proof fn lemma_no_reserved_entry(text: Seq<char>, i: int)
    requires
        database_entries(text) is Some,
        0 <= i < database_entries(text).unwrap().len(),
    ensures
        !is_reserved(database_entries(text).unwrap()[i]),
{
    let es = database_model(text).unwrap();
    es.lemma_filter_pred(|e: EntryModel| !is_reserved(e), i);
}

fn find_char_at(s: &Vec<char>, i: usize, c: char) -> (r: Option<usize>)
    requires
        i <= s.len(),
    ensures
        match r {
            Some(j) => find_from(s@, i as int, c) == Some(j as int) && i <= j < s.len(),
            None => find_from(s@, i as int, c) is None,
        },
{
    let mut p = i;
    while p < s.len()
        invariant
            i <= p <= s.len(),
            find_from(s@, i as int, c) == find_from(s@, p as int, c),
        decreases s.len() - p,
    {
        if s[p] == c {
            return Some(p);
        }
        p = p + 1;
    }
    None
}

fn find_block_end_at(s: &Vec<char>, i: usize) -> (r: Option<usize>)
    requires
        i <= s.len(),
    ensures
        match r {
            Some(j) => find_block_end(s@, i as int) == Some(j as int) && i <= j && j + 1
                < s.len(),
            None => find_block_end(s@, i as int) is None,
        },
{
    let mut p = i;
    while p < s.len() && p + 1 < s.len()
        invariant
            i <= p,
            p <= s.len(),
            find_block_end(s@, i as int) == find_block_end(s@, p as int),
        decreases s.len() - p,
    {
        if s[p] == '*' && s[p + 1] == '/' {
            return Some(p);
        }
        p = p + 1;
    }
    None
}

fn ws_at(s: &Vec<char>, i: usize) -> (r: usize)
    requires
        i <= s.len(),
    ensures
        r as int == skip_ws(s@, i as int),
        i <= r <= s.len(),
{
    let mut p = i;
    loop
        invariant
            i <= p <= s.len(),
            skip_ws(s@, i as int) == skip_ws(s@, p as int),
        ensures
            i <= p <= s.len(),
            skip_ws(s@, i as int) == skip_ws(s@, p as int),
            skip_ws(s@, p as int) == p as int,
        decreases s.len() - p,
    {
        if p >= s.len() {
            break;
        }
        let c = s[p];
        if c == ' ' || c == '\t' || c == '\r' || c == '\n' {
            p = p + 1;
        } else if c == '/' && p + 1 < s.len() && s[p + 1] == '/' {
            match find_char_at(s, p + 2, '\n') {
                Some(j) => {
                    p = j + 1;
                },
                None => {
                    break;
                },
            }
        } else if c == '/' && p + 1 < s.len() && s[p + 1] == '*' {
            match find_block_end_at(s, p + 2) {
                Some(j) => {
                    p = j + 2;
                },
                None => {
                    break;
                },
            }
        } else {
            break;
        }
    }
    p
}

fn unescape_char(c: char) -> (r: char)
    ensures
        r == unescape(c),
{
    if c == 'n' {
        '\n'
    } else if c == 'r' {
        '\r'
    } else if c == 't' {
        '\t'
    } else {
        c
    }
}

fn string_body_at(s: &Vec<char>, i: usize) -> (r: (usize, Vec<char>))
    requires
        i <= s.len(),
    ensures
        r.0 as int == string_body(s@, i as int).0,
        r.1@ == string_body(s@, i as int).1,
        i <= r.0 <= s.len(),
{
    let mut p = i;
    let mut acc: Vec<char> = Vec::new();
    assert(string_body(s@, i as int).1 =~= acc@ + string_body(s@, i as int).1);
    loop
        invariant
            i <= p <= s.len(),
            string_body(s@, i as int).0 == string_body(s@, p as int).0,
            string_body(s@, i as int).1 == acc@ + string_body(s@, p as int).1,
        ensures
            i <= p <= s.len(),
            string_body(s@, i as int).0 == string_body(s@, p as int).0,
            string_body(s@, i as int).1 == acc@ + string_body(s@, p as int).1,
            string_body(s@, p as int).0 == p as int,
            string_body(s@, p as int).1 == Seq::<char>::empty(),
        decreases s.len() - p,
    {
        if p >= s.len() {
            break;
        }
        let c = s[p];
        if c != '\n' && c != '\\' && c != '"' {
            let ghost rest = string_body(s@, p + 1 as int).1;
            let ghost before = acc@;
            acc.push(c);
            assert(before + (seq![c] + rest) =~= acc@ + rest);
            p = p + 1;
        } else if c == '\\' && p + 1 < s.len() && (s[p + 1] == '\\' || s[p + 1] == '"' || s[p + 1]
            == '\'' || s[p + 1] == 'n' || s[p + 1] == 'r' || s[p + 1] == 't') {
            let e = unescape_char(s[p + 1]);
            let ghost rest = string_body(s@, p + 2 as int).1;
            let ghost before = acc@;
            acc.push(e);
            assert(before + (seq![e] + rest) =~= acc@ + rest);
            p = p + 2;
        } else {
            break;
        }
    }
    assert(string_body(s@, i as int).1 =~= acc@);
    (p, acc)
}

fn string_literal_at(s: &Vec<char>, i: usize) -> (r: Option<(usize, Vec<char>)>)
    requires
        i <= s.len(),
    ensures
        r is Some <==> string_literal(s@, i as int) is Some,
        r is Some ==> {
            let sp = string_literal(s@, i as int).unwrap();
            &&& r.unwrap().0 as int == sp.0
            &&& r.unwrap().1@ == sp.1
            &&& i < r.unwrap().0 <= s.len()
        },
{
    if i < s.len() && s[i] == '"' {
        let (p, body) = string_body_at(s, i + 1);
        if p < s.len() && s[p] == '"' {
            Some((p + 1, body))
        } else {
            None
        }
    } else {
        None
    }
}

fn string_value_at(s: &Vec<char>, i: usize) -> (r: Option<(usize, Vec<char>)>)
    requires
        i <= s.len(),
    ensures
        r is Some <==> string_value(s@, i as int) is Some,
        r is Some ==> {
            let sp = string_value(s@, i as int).unwrap();
            &&& r.unwrap().0 as int == sp.0
            &&& r.unwrap().1@ == sp.1
            &&& i < r.unwrap().0 <= s.len()
        },
{
    let (first_end, mut acc) = match string_literal_at(s, i) {
        Some(x) => x,
        None => {
            return None;
        },
    };
    let mut p = first_end;
    assert(string_more(s@, first_end as int).1 =~= Seq::<char>::empty() + string_more(
        s@,
        first_end as int,
    ).1);
    let ghost more0 = string_more(s@, first_end as int);
    let ghost lit_part = acc@;
    loop
        invariant
            first_end <= p <= s.len(),
            i < first_end <= s.len(),
            more0 == string_more(s@, first_end as int),
            lit_part.len() <= acc@.len(),
            acc@.subrange(0, lit_part.len() as int) == lit_part,
            more0.0 == string_more(s@, p as int).0,
            lit_part + more0.1 == acc@ + string_more(s@, p as int).1,
        ensures
            first_end <= p <= s.len(),
            more0.0 == p as int,
            lit_part + more0.1 == acc@,
        decreases s.len() - p,
    {
        let j = ws_at(s, p);
        match string_literal_at(s, j) {
            Some((k, part)) => {
                let ghost rest = string_more(s@, k as int).1;
                let ghost before = acc@;
                let mut part_v = part;
                acc.append(&mut part_v);
                assert(before + (part@ + rest) =~= acc@ + rest);
                assert(acc@.subrange(0, lit_part.len() as int) =~= lit_part);
                p = k;
            },
            None => {
                break;
            },
        }
    }
    assert(string_value(s@, i as int).unwrap().1 =~= acc@);
    Some((p, acc))
}

fn comma_at(s: &Vec<char>, i: usize) -> (r: Option<usize>)
    requires
        i <= s.len(),
    ensures
        match r {
            Some(j) => comma(s@, i as int) == Some(j as int) && i < j <= s.len(),
            None => comma(s@, i as int) is None,
        },
{
    let j = ws_at(s, i);
    if j < s.len() && s[j] == ',' {
        let k = ws_at(s, j + 1);
        Some(k)
    } else {
        None
    }
}

fn entry_at(s: &Vec<char>, i: usize) -> (r: Option<(usize, Entry)>)
    requires
        i <= s.len(),
    ensures
        r is Some <==> entry(s@, i as int) is Some,
        r is Some ==> {
            let sp = entry(s@, i as int).unwrap();
            &&& r.unwrap().0 as int == sp.0
            &&& r.unwrap().1@ == sp.1
            &&& i < r.unwrap().0 <= s.len()
        },
{
    if !(i < s.len() && s[i] == '{') {
        return None;
    }
    let j0 = ws_at(s, i + 1);
    let (p1, family) = match string_value_at(s, j0) {
        Some(x) => x,
        None => {
            return None;
        },
    };
    let q1 = match comma_at(s, p1) {
        Some(x) => x,
        None => {
            return None;
        },
    };
    let (p2, model) = match string_value_at(s, q1) {
        Some(x) => x,
        None => {
            return None;
        },
    };
    let q2 = match comma_at(s, p2) {
        Some(x) => x,
        None => {
            return None;
        },
    };
    let (p3, firmware) = match string_value_at(s, q2) {
        Some(x) => x,
        None => {
            return None;
        },
    };
    let q3 = match comma_at(s, p3) {
        Some(x) => x,
        None => {
            return None;
        },
    };
    let (p4, warning) = match string_value_at(s, q3) {
        Some(x) => x,
        None => {
            return None;
        },
    };
    let q4 = match comma_at(s, p4) {
        Some(x) => x,
        None => {
            return None;
        },
    };
    let (p5, presets) = match string_value_at(s, q4) {
        Some(x) => x,
        None => {
            return None;
        },
    };
    let j5 = ws_at(s, p5);
    if j5 < s.len() && s[j5] == '}' {
        let e = Entry {
            family: crate::text::chars_to_string(&family),
            model: crate::text::chars_to_string(&model),
            firmware: crate::text::chars_to_string(&firmware),
            warning: crate::text::chars_to_string(&warning),
            presets: crate::text::chars_to_string(&presets),
        };
        assert(e@ =~= entry(s@, i as int).unwrap().1);
        Some((j5 + 1, e))
    } else {
        None
    }
}

fn entry_is_reserved(e: &Entry) -> (r: bool)
    ensures
        r == is_reserved(e@),
{
    let f = e.family.as_str();
    let n = f.unicode_len();
    n > 0 && f.get_char(0) == '$'
}

/// Parse a whole database text into its entries, in order, with reserved
/// `$`-entries dropped. Fails atomically: either the entire text parses, or
/// a syntax error with a best-effort position is returned and no partial
/// result exists.
pub fn database(input: &str) -> (r: Result<Vec<Entry>, SyntaxError>)
    ensures
        r is Ok <==> database_entries(input@) is Some,
        r is Ok ==> r.unwrap().deep_view() == database_entries(input@).unwrap(),
{
    let s = crate::text::str_to_chars(input);
    let i0 = ws_at(&s, 0);
    let (c0, e0) = match entry_at(&s, i0) {
        Some(x) => x,
        None => {
            return Err(SyntaxError { position: i0 });
        },
    };
    let ghost first_model = e0@;
    let ghost more0 = entries_more(s@, c0 as int);
    let mut acc: Vec<Entry> = Vec::new();
    acc.push(e0);
    let mut p = c0;
    assert(acc.deep_view() =~= seq![first_model]);
    assert(seq![first_model] + more0.1 =~= acc.deep_view() + entries_more(s@, p as int).1);
    loop
        invariant_except_break
            more0.0 == entries_more(s@, p as int).0,
            seq![first_model] + more0.1 == acc.deep_view() + entries_more(s@, p as int).1,
        invariant
            c0 <= p <= s.len(),
            more0 == entries_more(s@, c0 as int),
        ensures
            p <= s.len(),
            more0.0 == p as int,
            seq![first_model] + more0.1 == acc.deep_view(),
        decreases s.len() - p,
    {
        match comma_at(&s, p) {
            None => {
                assert(seq![first_model] + more0.1 =~= acc.deep_view());
                break;
            },
            Some(j) => {
                match entry_at(&s, j) {
                    Some((k, e)) => {
                        let ghost rest = entries_more(s@, k as int).1;
                        let ghost before = acc.deep_view();
                        let ghost em = e@;
                        acc.push(e);
                        assert(acc.deep_view() =~= before.push(em));
                        assert(before + (seq![em] + rest) =~= acc.deep_view() + rest);
                        p = k;
                    },
                    None => {
                        p = j;
                        assert(seq![first_model] + more0.1 =~= acc.deep_view());
                        break;
                    },
                }
            },
        }
    }
    let fin = ws_at(&s, p);
    if fin != s.len() {
        return Err(SyntaxError { position: fin });
    }
    assert(database_model(input@) == Some(acc.deep_view()));
    let ghost all = acc.deep_view();
    let mut out: Vec<Entry> = Vec::new();
    let mut k: usize = 0;
    proof {
        reveal_with_fuel(Seq::filter, 1);
        assert(all.subrange(0, 0).len() == 0);
        assert(drop_reserved(all.subrange(0, 0)) =~= out.deep_view());
    }
    while k < acc.len()
        invariant
            k <= acc.len(),
            all == acc.deep_view(),
            out.deep_view() == drop_reserved(all.subrange(0, k as int)),
        decreases acc.len() - k,
    {
        let ghost prefix = all.subrange(0, k as int);
        proof {
            assert(all.subrange(0, k + 1 as int) =~= prefix.push(all[k as int]));
            lemma_drop_reserved_push(prefix, all[k as int]);
        }
        if !entry_is_reserved(&acc[k]) {
            let ghost before = out.deep_view();
            out.push(acc[k].clone());
            assert(out.deep_view() =~= before.push(all[k as int]));
        }
        k = k + 1;
    }
    assert(all.subrange(0, acc.len() as int) =~= all);
    Ok(out)
}

} // verus!
