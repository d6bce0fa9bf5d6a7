//! Affix-rule engine for expanding compact spell-checker dictionaries.
//!
//! A dictionary pairs each base word with a set of flags; an affix file maps
//! each flag to prefix and suffix rules.  This crate compiles rule conditions,
//! applies and reverse-applies rules with character (not byte) indexing,
//! expands a word under its flags into the full set of derived forms, and
//! recovers base words from inflected forms by guess-and-verify.

use vstd::prelude::*;

pub mod affix;
pub mod affix_file;
pub mod condition;
pub mod dictionary;
pub mod error;
pub mod expander;
pub mod text;

pub use crate::affix::{AffixRule, AffixType};
pub use crate::affix_file::{AffixFile, FlagType};
pub use crate::dictionary::{Dictionary, DictionaryEntry};
pub use crate::error::RunmunchError;
pub use crate::expander::WordExpander;

use crate::expander::{spec_expand_all_set, spec_expand_set};

verus! {

/// Whether entry `e` contributes `x`: a flagless entry contributes its word
/// alone, a flagged one its whole expansion.
pub open spec fn entry_generates(af: AffixFile, e: DictionaryEntry, x: Seq<char>) -> bool {
    if e.flags@.len() == 0 {
        x == e.word@
    } else {
        spec_expand_set(af, e.word@, e.flags.deep_view()).contains(x)
    }
}

/// Whether `x` is among the unmunched forms of `entries`.
pub open spec fn unmunch_set(af: AffixFile, entries: Seq<DictionaryEntry>) -> Set<Seq<char>> {
    Set::new(
        |x: Seq<char>|
            exists|i: int| 0 <= i < entries.len() && entry_generates(af, entries[i], x),
    )
}

/// Whether every entry carries no flags (then unmunching needs no table).
pub open spec fn all_flagless(entries: Seq<DictionaryEntry>) -> bool {
    forall|i: int| 0 <= i < entries.len() ==> entries[i].flags@.len() == 0
}

/// The union of the no-flag expansions of `words`.
pub open spec fn expand_words_set(af: AffixFile, words: Seq<String>) -> Set<Seq<char>> {
    Set::new(
        |x: Seq<char>|
            exists|i: int| 0 <= i < words.len() && spec_expand_all_set(af, words[i]@).contains(x),
    )
}

/// The facade: a rule table, a dictionary, and the engine over them.
pub struct Runmunch {
    pub dictionary: Option<Dictionary>,
    pub expander: WordExpander,
}

impl Runmunch {
    /// A facade with nothing loaded.
    pub fn new() -> (r: Self)
        ensures
            r.dictionary is None,
            r.expander.affix_file is None,
    {
        Runmunch { dictionary: None, expander: WordExpander::new() }
    }

    /// Attaches a parsed affix file.
    pub fn set_affix_file(&mut self, affix_file: AffixFile)
        ensures
            final(self).expander.affix_file == Some(affix_file),
            final(self).dictionary == old(self).dictionary,
    {
        self.expander.set_affix_file(affix_file);
    }

    /// Attaches a parsed dictionary.
    pub fn set_dictionary(&mut self, dictionary: Dictionary)
        ensures
            final(self).dictionary == Some(dictionary),
            final(self).expander == old(self).expander,
    {
        self.dictionary = Some(dictionary);
    }

    /// Expands one word with every rule, the fallback for unknown flags.
    pub fn expand_word(&self, word: &str) -> (r: Result<Vec<String>, RunmunchError>)
        ensures
            self.expander.affix_file is None ==> r == Err::<Vec<String>, RunmunchError>(
                RunmunchError::NoAffixFile,
            ),
            (self.expander.affix_file matches Some(af) ==> r matches Ok(v) && {
                &&& v.deep_view().to_set() == spec_expand_all_set(af, word@)
                &&& v.deep_view().to_set().contains(word@)
                &&& crate::text::sorted_le(v.deep_view())
                &&& crate::text::distinct_seq(v.deep_view())
            }),
    {
        self.expander.expand(word)
    }

    /// Recovers and expands the base words of an inflected form.
    pub fn find_base_and_expand(&self, inflected_word: &str) -> (r: Result<
        Vec<String>,
        RunmunchError,
    >)
        ensures
            self.dictionary is None ==> r == Err::<Vec<String>, RunmunchError>(
                RunmunchError::NoDictionary,
            ),
            self.dictionary is Some && self.expander.affix_file is None ==> r == Err::<
                Vec<String>,
                RunmunchError,
            >(RunmunchError::NoAffixFile),
            (self.dictionary matches Some(d) ==> (self.expander.affix_file matches Some(af)
                ==> r matches Ok(v) && {
                &&& crate::text::sorted_le(v.deep_view())
                &&& crate::text::distinct_seq(v.deep_view())
                &&& (crate::expander::base_word_set(af, d, inflected_word@) == Set::<
                    Seq<char>,
                >::empty() ==> v.deep_view() == seq![inflected_word@])
                &&& (crate::expander::base_word_set(af, d, inflected_word@) != Set::<
                    Seq<char>,
                >::empty() ==> v.deep_view().to_set() == crate::expander::base_expansion_set(
                    af,
                    d,
                    inflected_word@,
                ))
            })),
    {
        let dictionary = match &self.dictionary {
            Some(d) => d,
            None => {
                return Err(RunmunchError::NoDictionary);
            },
        };
        self.expander.find_base_and_expand(inflected_word, dictionary)
    }

    /// Expands each word with every rule, gathering the union of the
    /// results; each form appears once.
    pub fn expand_words(&self, words: &[String]) -> (r: Result<Vec<String>, RunmunchError>)
        ensures
            self.expander.affix_file is None && words@.len() > 0 ==> r == Err::<
                Vec<String>,
                RunmunchError,
            >(RunmunchError::NoAffixFile),
            words@.len() == 0 ==> (r matches Ok(v) && v.deep_view().len() == 0),
            (self.expander.affix_file matches Some(af) ==> r matches Ok(v) && {
                &&& v.deep_view().to_set() == expand_words_set(af, words@)
                &&& crate::text::distinct_seq(v.deep_view())
            }),
    {
        let ghost ws = words@;
        let mut result: Vec<String> = Vec::new();
        proof {
            assert(result.deep_view() =~= Seq::<Seq<char>>::empty());
        }
        let mut i: usize = 0;
        while i < words.len()
            invariant
                i <= ws.len(),
                ws == words@,
                i > 0 ==> self.expander.affix_file is Some,
                crate::text::distinct_seq(result.deep_view()),
                (forall|x: Seq<char>|
                    result.deep_view().to_set().contains(x) <==> (exists|k: int|
                        0 <= k < i && spec_expand_all_set(
                            self.expander.affix_file->Some_0,
                            ws[k]@,
                        ).contains(x))),
            decreases ws.len() - i,
        {
            let ghost before_set = result.deep_view().to_set();
            proof {
                assert(forall|x: Seq<char>|
                    before_set.contains(x) <==> (exists|k: int|
                        0 <= k < i && spec_expand_all_set(
                            self.expander.affix_file->Some_0,
                            ws[k]@,
                        ).contains(x)));
            }
            let expanded = match self.expand_word(words[i].as_str()) {
                Ok(v) => v,
                Err(e) => {
                    return Err(e);
                },
            };
            let ghost ev = expanded.deep_view();
            let nv = expanded.len();
            let mut ei: usize = 0;
            while ei < nv
                invariant
                    ei <= ev.len(),
                    nv == ev.len(),
                    ev == expanded.deep_view(),
                    nv == expanded@.len(),
                    i < ws.len(),
                    ws == words@,
                    self.expander.affix_file is Some,
                    ev.to_set() == spec_expand_all_set(
                        self.expander.affix_file->Some_0,
                        ws[i as int]@,
                    ),
                    crate::text::distinct_seq(result.deep_view()),
                    result.deep_view().to_set() =~= before_set.union(ev.take(ei as int).to_set()),
                    (forall|x: Seq<char>|
                        before_set.contains(x) <==> (exists|k: int|
                            0 <= k < i && spec_expand_all_set(
                            self.expander.affix_file->Some_0,
                            ws[k]@,
                        ).contains(x))),
                decreases ev.len() - ei,
            {
                let ghost before = result.deep_view();
                let added = crate::text::insert_unique(&mut result, expanded[ei].clone());
                proof {
                    if added {
                        crate::text::lemma_push_to_set(before, ev[ei as int]);
                    }
                    assert(ev.take(ei as int + 1) =~= ev.take(ei as int).push(ev[ei as int]));
                    crate::text::lemma_push_to_set(ev.take(ei as int), ev[ei as int]);
                    assert(result.deep_view().to_set() =~= before_set.union(
                        ev.take(ei as int + 1).to_set(),
                    ));
                }
                ei += 1;
            }
            proof {
                assert(ev.take(ev.len() as int) =~= ev);
                assert forall|x: Seq<char>|
                    result.deep_view().to_set().contains(x) implies (exists|k: int|
                    0 <= k < i + 1 && spec_expand_all_set(
                        self.expander.affix_file->Some_0,
                        ws[k]@,
                    ).contains(x)) by {
                    if before_set.contains(x) {
                        let k = choose|k: int|
                            0 <= k < i && spec_expand_all_set(
                                self.expander.affix_file->Some_0,
                                ws[k]@,
                            ).contains(x);
                        assert(0 <= k < i + 1 && spec_expand_all_set(
                            self.expander.affix_file->Some_0,
                            ws[k]@,
                        ).contains(x));
                    } else {
                        assert(ev.to_set().contains(x));
                        assert(0 <= (i as int) < i + 1 && spec_expand_all_set(
                            self.expander.affix_file->Some_0,
                            ws[i as int]@,
                        ).contains(x));
                    }
                }
                assert forall|x: Seq<char>|
                    (exists|k: int|
                        0 <= k < i + 1 && spec_expand_all_set(
                            self.expander.affix_file->Some_0,
                            ws[k]@,
                        ).contains(x)) implies result.deep_view().to_set().contains(x) by {
                    let k = choose|k: int|
                        0 <= k < i + 1 && spec_expand_all_set(
                            self.expander.affix_file->Some_0,
                            ws[k]@,
                        ).contains(x);
                    if k < i {
                        assert(0 <= k < i && spec_expand_all_set(
                            self.expander.affix_file->Some_0,
                            ws[k]@,
                        ).contains(x));
                        assert(before_set.contains(x));
                    } else {
                        assert(ev.to_set().contains(x));
                    }
                }
            }
            i += 1;
        }
        proof {
            if self.expander.affix_file is Some {
                assert(result.deep_view().to_set() =~= expand_words_set(
                    self.expander.affix_file->Some_0,
                    ws,
                ));
            }
            if ws.len() == 0 {
                if result.deep_view().len() > 0 {
                    assert(result.deep_view().to_set().contains(result.deep_view()[0]));
                }
            }
        }
        Ok(result)
    }

    /// Expands the whole dictionary: each entry's word under its flags, a
    /// flagless entry standing alone; each generated form appears once.
    pub fn unmunch(&self) -> (r: Result<Vec<String>, RunmunchError>)
        ensures
            self.dictionary is None ==> r == Err::<Vec<String>, RunmunchError>(
                RunmunchError::NoDictionary,
            ),
            (self.dictionary matches Some(d) ==> ((self.expander.affix_file is None
                && !all_flagless(d.spec_entries())) ==> r == Err::<Vec<String>, RunmunchError>(
                RunmunchError::NoAffixFile,
            ))),
            (self.dictionary matches Some(d) ==> ((self.expander.affix_file is Some
                || all_flagless(d.spec_entries())) ==> (r matches Ok(v) && {
                &&& (self.expander.affix_file matches Some(af) ==> v.deep_view().to_set()
                    == unmunch_set(af, d.spec_entries()))
                &&& crate::text::distinct_seq(v.deep_view())
            }))),
    {
        let dictionary = match &self.dictionary {
            Some(d) => d,
            None => {
                return Err(RunmunchError::NoDictionary);
            },
        };
        let ghost es = dictionary.spec_entries();
        let entries = dictionary.entries();
        let mut result: Vec<String> = Vec::new();
        proof {
            assert(result.deep_view() =~= Seq::<Seq<char>>::empty());
        }
        let mut i: usize = 0;
        while i < entries.len()
            invariant
                i <= es.len(),
                es == entries@,
                es == dictionary.spec_entries(),
                self.dictionary matches Some(d2) && d2 == *dictionary,
                crate::text::distinct_seq(result.deep_view()),
                (forall|k: int| 0 <= k < i && es[k].flags@.len() > 0 ==> self.expander.affix_file
                    is Some),
                (forall|x: Seq<char>|
                    result.deep_view().to_set().contains(x) <==> (exists|k: int|
                        0 <= k < i && entry_generates(
                            self.expander.affix_file->Some_0,
                            es[k],
                            x,
                        ))),
            decreases es.len() - i,
        {
            let ghost before_set = result.deep_view().to_set();
            proof {
                assert(forall|x: Seq<char>|
                    before_set.contains(x) <==> (exists|k: int|
                        0 <= k < i && entry_generates(
                            self.expander.affix_file->Some_0,
                            es[k],
                            x,
                        )));
            }
            let entry = &entries[i];
            let expanded: Vec<String> = if entry.flags.is_empty() {
                let mut one: Vec<String> = Vec::new();
                one.push(entry.word.clone());
                proof {
                    assert(one.deep_view() =~= seq![es[i as int].word@]);
                }
                one
            } else {
                let flags_slice = entry.flags.as_slice();
                proof {
                    assert(flags_slice.deep_view() =~= entry.flags.deep_view());
                }
                match self.expander.expand_with_flags(entry.word.as_str(), flags_slice) {
                    Ok(v) => v,
                    Err(e) => {
                        return Err(e);
                    },
                }
            };
            let ghost ev = expanded.deep_view();
            proof {
                if es[i as int].flags@.len() == 0 {
                    assert(ev.to_set() =~= Set::<Seq<char>>::empty().insert(es[i as int].word@))
                        by {
                        assert(ev =~= seq![es[i as int].word@]);
                        assert(Seq::<Seq<char>>::empty().to_set() =~= Set::<Seq<char>>::empty());
                        crate::text::lemma_push_to_set(
                            Seq::<Seq<char>>::empty(),
                            es[i as int].word@,
                        );
                        assert(seq![es[i as int].word@] =~= Seq::<Seq<char>>::empty().push(
                            es[i as int].word@,
                        ));
                    }
                }
            }
            let nv = expanded.len();
            let mut ei: usize = 0;
            while ei < nv
                invariant
                    ei <= ev.len(),
                    nv == ev.len(),
                    ev == expanded.deep_view(),
                    nv == expanded@.len(),
                    i < es.len(),
                    es == dictionary.spec_entries(),
                    self.dictionary matches Some(d3) && d3 == *dictionary,
                    (es[i as int].flags@.len() == 0 ==> ev.to_set() == Set::<
                        Seq<char>,
                    >::empty().insert(es[i as int].word@)),
                    (es[i as int].flags@.len() > 0 ==> self.expander.affix_file is Some
                        && ev.to_set() == spec_expand_set(
                        self.expander.affix_file->Some_0,
                        es[i as int].word@,
                        es[i as int].flags.deep_view(),
                    )),
                    (forall|k: int| 0 <= k < i && es[k].flags@.len() > 0
                        ==> self.expander.affix_file is Some),
                    crate::text::distinct_seq(result.deep_view()),
                    result.deep_view().to_set() =~= before_set.union(ev.take(ei as int).to_set()),
                    (forall|x: Seq<char>|
                        before_set.contains(x) <==> (exists|k: int|
                            0 <= k < i && entry_generates(
                                self.expander.affix_file->Some_0,
                                es[k],
                                x,
                            ))),
                decreases ev.len() - ei,
            {
                let ghost before = result.deep_view();
                let added = crate::text::insert_unique(&mut result, expanded[ei].clone());
                proof {
                    if added {
                        crate::text::lemma_push_to_set(before, ev[ei as int]);
                    }
                    assert(ev.take(ei as int + 1) =~= ev.take(ei as int).push(ev[ei as int]));
                    crate::text::lemma_push_to_set(ev.take(ei as int), ev[ei as int]);
                    assert(result.deep_view().to_set() =~= before_set.union(
                        ev.take(ei as int + 1).to_set(),
                    ));
                }
                ei += 1;
            }
            proof {
                assert(ev.take(ev.len() as int) =~= ev);
                assert forall|x: Seq<char>|
                    result.deep_view().to_set().contains(x) implies (exists|k: int|
                    0 <= k < i + 1 && entry_generates(
                        self.expander.affix_file->Some_0,
                        es[k],
                        x,
                    )) by {
                    if before_set.contains(x) {
                        let k = choose|k: int|
                            0 <= k < i && entry_generates(
                                self.expander.affix_file->Some_0,
                                es[k],
                                x,
                            );
                        assert(0 <= k < i + 1 && entry_generates(
                            self.expander.affix_file->Some_0,
                            es[k],
                            x,
                        ));
                    } else {
                        assert(ev.to_set().contains(x));
                        assert(0 <= (i as int) < i + 1 && entry_generates(
                            self.expander.affix_file->Some_0,
                            es[i as int],
                            x,
                        ));
                    }
                }
                assert forall|x: Seq<char>|
                    (exists|k: int|
                        0 <= k < i + 1 && entry_generates(
                            self.expander.affix_file->Some_0,
                            es[k],
                            x,
                        )) implies result.deep_view().to_set().contains(x) by {
                    let k = choose|k: int|
                        0 <= k < i + 1 && entry_generates(
                            self.expander.affix_file->Some_0,
                            es[k],
                            x,
                        );
                    if k < i {
                        assert(0 <= k < i && entry_generates(
                            self.expander.affix_file->Some_0,
                            es[k],
                            x,
                        ));
                        assert(before_set.contains(x));
                    } else {
                        assert(ev.to_set().contains(x));
                    }
                }
            }
            i += 1;
        }
        proof {
            if self.expander.affix_file is Some {
                assert(result.deep_view().to_set() =~= unmunch_set(
                    self.expander.affix_file->Some_0,
                    es,
                ));
            }
        }
        Ok(result)
    }
}

impl Default for Runmunch {
    /// A facade with nothing loaded.
    fn default() -> (r: Self)
        ensures
            r.dictionary is None,
            r.expander.affix_file is None,
    {
        Runmunch::new()
    }
}

} // verus!
