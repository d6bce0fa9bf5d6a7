//! The dictionary reader: base words, each with its raw flag list.
//!
//! Dictionary text is one declared word count, then one entry per line:
//! a word, optionally `/` and a flag string.  Without the affix file's
//! declared flag mode, the flag string's segmentation is a documented
//! best-effort heuristic (see [`Dictionary::parse_flags`]); it stays in this
//! reader and never inside the expansion engine.

use vstd::prelude::*;

use crate::error::RunmunchError;
use crate::text;

verus! {

/// One dictionary entry: a base word and its raw flag tokens.
#[derive(Debug, Clone)]
pub struct DictionaryEntry {
    pub word: String,
    pub flags: Vec<String>,
}

/// A loaded dictionary; later entries shadow earlier ones of the same word.
#[derive(Debug, Clone)]
pub struct Dictionary {
    pub entries: Vec<DictionaryEntry>,
}

/// The model of one entry: its word and flag texts.
pub open spec fn entry_model(e: DictionaryEntry) -> (Seq<char>, Seq<Seq<char>>) {
    (e.word@, e.flags.deep_view())
}

/// The models of an entry sequence.
pub open spec fn entries_model(es: Seq<DictionaryEntry>) -> Seq<(Seq<char>, Seq<Seq<char>>)> {
    Seq::new(es.len(), |i: int| entry_model(es[i]))
}

/// The entry for `w`, scanning from the most recently added.
pub open spec fn spec_lookup(es: Seq<DictionaryEntry>, w: Seq<char>) -> Option<
    DictionaryEntry,
>
    decreases es.len(),
{
    if es.len() == 0 {
        None
    } else if es.last().word@ == w {
        Some(es.last())
    } else {
        spec_lookup(es.drop_last(), w)
    }
}

/// The length of the leading digit run of `s`.
pub open spec fn digit_run(s: Seq<char>) -> int
    decreases s.len(),
{
    if s.len() == 0 || !text::is_digit_char(s[0]) {
        0
    } else {
        1 + digit_run(s.skip(1))
    }
}

pub proof fn lemma_digit_run(s: Seq<char>)
    ensures
        0 <= digit_run(s) <= s.len(),
        forall|j: int| 0 <= j < digit_run(s) ==> text::is_digit_char(s[j]),
        digit_run(s) < s.len() ==> !text::is_digit_char(s[digit_run(s)]),
    decreases s.len(),
{
    if s.len() > 0 && text::is_digit_char(s[0]) {
        let t = s.skip(1);
        lemma_digit_run(t);
        assert forall|j: int| 0 <= j < digit_run(s) implies text::is_digit_char(s[j]) by {
            if j > 0 {
                assert(t[j - 1] == s[j]);
            }
        }
        if digit_run(s) < s.len() {
            assert(t[digit_run(t)] == s[digit_run(s)]);
        }
    }
}

/// Mixed-format flag segmentation: each maximal digit run is one flag, any
/// other character stands alone.
pub open spec fn mixed_flags(s: Seq<char>) -> Seq<Seq<char>>
    decreases s.len(),
    via mixed_flags_dec
{
    if s.len() == 0 {
        Seq::empty()
    } else if text::is_digit_char(s[0]) {
        let k = digit_run(s);
        seq![s.take(k)] + mixed_flags(s.skip(k))
    } else {
        seq![seq![s[0]]] + mixed_flags(s.skip(1))
    }
}

#[via_fn]
proof fn mixed_flags_dec(s: Seq<char>) {
    if s.len() > 0 && text::is_digit_char(s[0]) {
        lemma_digit_run(s);
    }
}

/// The flag segmentation heuristic applied to a raw flag string `s`:
/// mixed text is split into digit runs and single characters; short
/// all-letter strings are one flag; longer even-length upper-case strings
/// split into pairs; anything else into single characters.
pub open spec fn parse_flags_spec(s: Seq<char>) -> Seq<Seq<char>> {
    if s.len() == 0 {
        Seq::empty()
    } else if exists|i: int| 0 <= i < s.len() && !text::is_ascii_alpha_char(s[i]) {
        mixed_flags(s)
    } else if s.len() <= 2 {
        seq![s]
    } else if s.len() % 2 == 0 && (forall|i: int|
        0 <= i < s.len() ==> text::is_ascii_upper_char(s[i])) {
        text::pairs_spec(s)
    } else {
        text::singles_spec(s)
    }
}

/// The two halves of an entry line: the word before the first `/` and the
/// flags parsed from the rest, both trimmed; no `/` means no flags.
pub open spec fn parse_entry_spec(line: Seq<char>) -> (Seq<char>, Seq<Seq<char>>) {
    let f = text::find_spec(line, '/');
    if f >= 0 {
        (text::trim_spec(line.take(f)), parse_flags_spec(text::trim_spec(line.skip(f + 1))))
    } else {
        (text::trim_spec(line), Seq::empty())
    }
}

/// The entries read from the lines after the count line: blank lines are
/// skipped, every other line is one entry.
pub open spec fn dict_entries_spec(lines: Seq<Seq<char>>) -> Seq<(Seq<char>, Seq<Seq<char>>)>
    decreases lines.len(),
{
    if lines.len() == 0 {
        Seq::empty()
    } else {
        let t = text::trim_spec(lines[0]);
        if t.len() == 0 {
            dict_entries_spec(lines.skip(1))
        } else {
            seq![parse_entry_spec(t)] + dict_entries_spec(lines.skip(1))
        }
    }
}

/// The parse of dictionary text: `None` on an empty file or an unreadable
/// count line, otherwise the entry models.
pub open spec fn parse_dict_spec(content: Seq<char>) -> Option<Seq<(Seq<char>, Seq<Seq<char>>)>> {
    let ls = text::lines_spec(content);
    if ls.len() == 0 {
        None
    } else if text::parse_uint_spec(text::trim_spec(ls[0]), usize::MAX as int) is None {
        None
    } else {
        Some(dict_entries_spec(ls.skip(1)))
    }
}

impl Dictionary {
    /// An empty dictionary.
    pub fn new() -> (d: Self)
        ensures
            d.spec_entries().len() == 0,
    {
        Dictionary { entries: Vec::new() }
    }

    /// The model of this dictionary.
    pub open spec fn model(self) -> Seq<(Seq<char>, Seq<Seq<char>>)> {
        entries_model(self.entries@)
    }

    /// The entry sequence (spec access).
    pub open spec fn spec_entries(self) -> Seq<DictionaryEntry> {
        self.entries@
    }

    /// Segments a raw flag string without the affix file's declared flag
    /// mode.  This is inherently ambiguous and deliberately best-effort:
    /// strings with a non-letter are split into digit runs and single
    /// characters; all-letter strings of at most two characters are one
    /// flag; longer even-length upper-case strings split into two-character
    /// flags; anything else into single characters.
    pub fn parse_flags(flags_str: &str) -> (r: Vec<String>)
        ensures
            r.deep_view() == parse_flags_spec(flags_str@),
    {
        let n = flags_str.unicode_len();
        if n == 0 {
            let out: Vec<String> = Vec::new();
            proof {
                assert(out.deep_view() =~= parse_flags_spec(flags_str@));
            }
            return out;
        }
        let mut has_non_alpha = false;
        let mut all_upper = true;
        let mut i: usize = 0;
        while i < n
            invariant
                i <= n,
                n == flags_str@.len(),
                has_non_alpha == exists|j: int|
                    0 <= j < i && !text::is_ascii_alpha_char(flags_str@[j]),
                all_upper == forall|j: int| 0 <= j < i ==> text::is_ascii_upper_char(flags_str@[j]),
            decreases n - i,
        {
            let c = flags_str.get_char(i);
            if !text::is_ascii_alpha(c) {
                has_non_alpha = true;
            }
            if !text::is_ascii_upper(c) {
                all_upper = false;
            }
            proof {
                if has_non_alpha && forall|j: int|
                    0 <= j < i + 1 ==> text::is_ascii_alpha_char(flags_str@[j]) {
                    let j = choose|j: int| 0 <= j < i + 1 && !text::is_ascii_alpha_char(
                        flags_str@[j],
                    );
                }
            }
            i += 1;
        }
        if has_non_alpha {
            return Self::parse_flags_mixed(flags_str);
        }
        if n <= 2 {
            let mut out: Vec<String> = Vec::new();
            out.push(flags_str.to_owned());
            proof {
                assert(out.deep_view() =~= seq![flags_str@]);
            }
            return out;
        }
        if n % 2 == 0 && all_upper {
            return text::split_pairs(flags_str);
        }
        text::split_singles(flags_str)
    }

    /// The mixed-format walk of [`Dictionary::parse_flags`].
    fn parse_flags_mixed(flags_str: &str) -> (r: Vec<String>)
        requires
            flags_str@.len() > 0,
        ensures
            r.deep_view() == mixed_flags(flags_str@),
    {
        let n = flags_str.unicode_len();
        let mut out: Vec<String> = Vec::new();
        let mut i: usize = 0;
        proof {
            assert(flags_str@.skip(0) =~= flags_str@);
        }
        while i < n
            invariant
                i <= n,
                n == flags_str@.len(),
                out.deep_view() + mixed_flags(flags_str@.skip(i as int)) =~= mixed_flags(
                    flags_str@,
                ),
            decreases n - i,
        {
            let ghost rest = flags_str@.skip(i as int);
            proof {
                assert(rest[0] == flags_str@[i as int]);
            }
            let c = flags_str.get_char(i);
            if text::is_digit(c) {
                let mut j: usize = i + 1;
                while j < n && text::is_digit(flags_str.get_char(j))
                    invariant
                        i < j <= n,
                        n == flags_str@.len(),
                        forall|k: int| i <= k < j ==> text::is_digit_char(flags_str@[k]),
                    decreases n - j,
                {
                    j += 1;
                }
                let tok = flags_str.substring_char(i, j);
                out.push(tok.to_owned());
                proof {
                    lemma_digit_run(rest);
                    let run = digit_run(rest);
                    assert forall|k: int| 0 <= k < j - i implies text::is_digit_char(
                        rest[k],
                    ) by {
                        assert(rest[k] == flags_str@[i + k]);
                    }
                    if run < j - i {
                        assert(text::is_digit_char(rest[run]));
                    }
                    if run > j - i {
                        assert(j < n);
                        assert(rest[j - i] == flags_str@[j as int]);
                        assert(text::is_digit_char(flags_str@[j as int]));
                    }
                    assert(run == j - i);
                    assert(tok@ =~= rest.take(run));
                    assert(rest.skip(run) =~= flags_str@.skip(j as int));
                    assert(out.deep_view() =~= out.deep_view().subrange(
                        0,
                        out.deep_view().len() - 1,
                    ).push(tok@));
                }
                i = j;
            } else {
                let tok = flags_str.substring_char(i, i + 1);
                out.push(tok.to_owned());
                proof {
                    assert(tok@ =~= seq![rest[0]]);
                    assert(rest.skip(1) =~= flags_str@.skip(i as int + 1));
                    assert(out.deep_view() =~= out.deep_view().subrange(
                        0,
                        out.deep_view().len() - 1,
                    ).push(tok@));
                }
                i += 1;
            }
        }
        proof {
            assert(flags_str@.skip(n as int) =~= Seq::<char>::empty());
        }
        out
    }

    /// Splits one entry line into its word and its parsed flags.
    pub fn parse_entry(line: &str) -> (r: Result<(String, Vec<String>), RunmunchError>)
        ensures
            r is Ok,
            r matches Ok(p) ==> parse_entry_spec(line@) == (p.0@, p.1.deep_view()),
    {
        proof {
            text::lemma_find_spec(line@, '/');
        }
        match text::find_char(line, '/') {
            Some(pos) => {
                let n = line.unicode_len();
                let word = text::trim(line.substring_char(0, pos)).to_owned();
                let flags_str = text::trim(line.substring_char(pos + 1, n));
                let flags = Self::parse_flags(flags_str);
                proof {
                    assert(line@.subrange(0, pos as int) =~= line@.take(pos as int));
                    assert(line@.subrange(pos as int + 1, n as int) =~= line@.skip(pos as int + 1));
                }
                Ok((word, flags))
            },
            None => {
                let word = text::trim(line).to_owned();
                Ok((word, Vec::new()))
            },
        }
    }

    /// Parses dictionary text: a count line, then entries, blank lines
    /// skipped.  Fails exactly when the text is empty or the count line is
    /// not a number.
    pub fn parse(content: &str) -> (r: Result<Dictionary, RunmunchError>)
        ensures
            r matches Ok(d) ==> parse_dict_spec(content@) == Some(d.model()),
            r matches Err(e) ==> parse_dict_spec(content@) is None && e matches RunmunchError::InvalidDictionary(_),
    {
        let lines = text::split_lines(content);
        if lines.len() == 0 {
            return Err(RunmunchError::InvalidDictionary("Empty dictionary file".to_owned()));
        }
        let head = text::trim(lines[0].as_str());
        if text::parse_usize_str(head).is_none() {
            return Err(RunmunchError::InvalidDictionary("Invalid word count".to_owned()));
        }
        let ghost lv = lines.deep_view();
        let mut entries: Vec<DictionaryEntry> = Vec::new();
        let mut li: usize = 1;
        proof {
            assert(lv.skip(1) =~= lv.skip(1));
            assert(entries_model(entries@) =~= Seq::<(Seq<char>, Seq<Seq<char>>)>::empty());
        }
        while li < lines.len()
            invariant
                1 <= li <= lines@.len(),
                lv == lines.deep_view(),
                lv.len() == lines@.len(),
                entries_model(entries@) + dict_entries_spec(lv.skip(li as int)) =~= dict_entries_spec(
                    lv.skip(1),
                ),
            decreases lines@.len() - li,
        {
            let ghost rest = lv.skip(li as int);
            proof {
                assert(rest[0] == lv[li as int]);
                assert(rest.skip(1) =~= lv.skip(li as int + 1));
            }
            let line = text::trim(lines[li].as_str());
            if line.unicode_len() > 0 {
                let parsed = Dictionary::parse_entry(line);
                match parsed {
                    Ok((word, flags)) => {
                        let entry = DictionaryEntry { word, flags };
                        let ghost em = entry_model(entry);
                        entries.push(entry);
                        proof {
                            assert(text::trim_spec(text::trim_spec(lv[li as int]))
                                =~= text::trim_spec(lv[li as int])) by {
                                lemma_trim_idempotent(lv[li as int]);
                            }
                            assert(em == parse_entry_spec(text::trim_spec(lv[li as int])));
                            assert(entries_model(entries@) =~= entries_model(
                                entries@.subrange(0, entries@.len() - 1),
                            ).push(em));
                        }
                    },
                    Err(_) => {
                        proof {
                            assert(false);
                        }
                    },
                }
            }
            li += 1;
        }
        proof {
            assert(lv.skip(lines@.len() as int) =~= Seq::<Seq<char>>::empty());
        }
        Ok(Dictionary { entries })
    }

    /// The entries, in the order they were read.
    pub fn entries(&self) -> (r: &Vec<DictionaryEntry>)
        ensures
            r@ == self.spec_entries(),
    {
        &self.entries
    }

    /// The most recently added entry for `word`, if any.
    pub fn get_entry(&self, word: &str) -> (r: Option<&DictionaryEntry>)
        ensures
            (match r {
                Some(e) => spec_lookup(self.spec_entries(), word@) == Some(*e),
                None => spec_lookup(self.spec_entries(), word@) is None,
            }),
    {
        let mut i: usize = self.entries.len();
        proof {
            assert(self.entries@.take(i as int) =~= self.entries@);
        }
        while i > 0
            invariant
                i <= self.entries@.len(),
                spec_lookup(self.entries@, word@) == spec_lookup(
                    self.entries@.take(i as int),
                    word@,
                ),
            decreases i,
        {
            i -= 1;
            let e = &self.entries[i];
            let ghost pre = self.entries@.take(i as int + 1);
            proof {
                assert(pre.last() == self.entries@[i as int]);
                assert(pre.drop_last() =~= self.entries@.take(i as int));
            }
            if text::str_eq(e.word.as_str(), word) {
                return Some(e);
            }
        }
        proof {
            assert(self.entries@.take(0) =~= Seq::<DictionaryEntry>::empty());
        }
        None
    }

    /// The number of entries.
    pub fn len(&self) -> (r: usize)
        ensures
            r == self.spec_entries().len(),
    {
        self.entries.len()
    }

    /// Whether the dictionary has no entries.
    pub fn is_empty(&self) -> (r: bool)
        ensures
            r == (self.spec_entries().len() == 0),
    {
        self.entries.is_empty()
    }
}

impl Default for Dictionary {
    /// An empty dictionary.
    fn default() -> (d: Self)
        ensures
            d.spec_entries().len() == 0,
    {
        Dictionary::new()
    }
}

/// Trimming is idempotent.
pub proof fn lemma_trim_idempotent(s: Seq<char>)
    ensures
        text::trim_spec(text::trim_spec(s)) == text::trim_spec(s),
{
    let t = text::trim_spec(s);
    lemma_trim_no_edge_ws(s);
    if t.len() > 0 {
        assert(!text::is_ws_char(t[0]));
        assert(!text::is_ws_char(t[t.len() - 1]));
    }
    assert(text::trim_start_spec(t) == t);
    assert(text::trim_end_spec(t) == t);
}

/// A trimmed text neither starts nor ends with whitespace.
proof fn lemma_trim_no_edge_ws(s: Seq<char>)
    ensures
        text::trim_spec(s).len() > 0 ==> !text::is_ws_char(text::trim_spec(s)[0]),
        text::trim_spec(s).len() > 0 ==> !text::is_ws_char(
            text::trim_spec(s)[text::trim_spec(s).len() - 1],
        ),
{
    let a = text::trim_start_spec(s);
    lemma_trim_start_no_ws(s);
    lemma_trim_end_no_ws(a);
    let b = text::trim_end_spec(a);
    if b.len() > 0 {
        lemma_trim_end_prefix(a);
        assert(b[0] == a[0]);
    }
}

/// The start-trim leaves no leading whitespace.
proof fn lemma_trim_start_no_ws(s: Seq<char>)
    ensures
        text::trim_start_spec(s).len() > 0 ==> !text::is_ws_char(text::trim_start_spec(s)[0]),
    decreases s.len(),
{
    if s.len() > 0 && text::is_ws_char(s[0]) {
        lemma_trim_start_no_ws(s.skip(1));
    }
}

/// The end-trim leaves no trailing whitespace.
proof fn lemma_trim_end_no_ws(s: Seq<char>)
    ensures
        text::trim_end_spec(s).len() > 0 ==> !text::is_ws_char(
            text::trim_end_spec(s)[text::trim_end_spec(s).len() - 1],
        ),
    decreases s.len(),
{
    if s.len() > 0 && text::is_ws_char(s[s.len() - 1]) {
        lemma_trim_end_no_ws(s.drop_last());
    }
}

/// The end-trim is a prefix of its input.
proof fn lemma_trim_end_prefix(s: Seq<char>)
    ensures
        text::trim_end_spec(s).len() <= s.len(),
        forall|i: int|
            0 <= i < text::trim_end_spec(s).len() ==> text::trim_end_spec(s)[i] == s[i],
    decreases s.len(),
{
    if s.len() > 0 && text::is_ws_char(s[s.len() - 1]) {
        let t = s.drop_last();
        lemma_trim_end_prefix(t);
        assert forall|i: int|
            0 <= i < text::trim_end_spec(s).len() implies text::trim_end_spec(s)[i] == s[i] by {
            assert(text::trim_end_spec(s) == text::trim_end_spec(t));
            assert(text::trim_end_spec(t)[i] == t[i]);
            assert(t[i] == s[i]);
        }
    }
}

} // verus!
