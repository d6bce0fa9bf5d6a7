//! The expansion engine: flag-driven generation of derived forms with
//! cross-product composition, and base-form recovery from an inflected word.
//!
//! Expansion is a breadth-first walk over `(word, hasAppliedSuffix, depth)`
//! states.  Depth is capped at two and total frontier pops at a fixed
//! ceiling; reaching the ceiling silently truncates exploration rather than
//! failing.  Base-form recovery is guess-and-verify: reverse application
//! proposes stems, and only a dictionary hit whose forward expansion
//! regenerates the inflected word accepts one.

use vstd::prelude::*;

use crate::affix::{spec_apply, spec_can_apply, spec_reverse_apply, AffixRule, AffixType};
use crate::affix_file::{aliases_model, expand_flags_spec, spec_get_rules, AffixFile, FlagRules};
use crate::dictionary::{spec_lookup, Dictionary};
use crate::error::RunmunchError;
use crate::text;

verus! {

/// The ceiling on frontier pops: past it, exploration silently stops and
/// the set gathered so far is returned.  A tunable bound, not an invariant.
pub const MAX_EXPANSION_POPS: usize = 10000;

/// One frontier state of the breadth-first expansion.
pub struct ExpState {
    pub word: String,
    pub has_suffix: bool,
    pub depth: usize,
}

/// The mathematical image of a frontier state.
#[verifier::ext_equal]
pub struct StateModel {
    pub word: Seq<char>,
    pub has_suffix: bool,
    pub depth: int,
}

/// The model of one state.
pub open spec fn state_model(s: ExpState) -> StateModel {
    StateModel { word: s.word@, has_suffix: s.has_suffix, depth: s.depth as int }
}

/// The models of a frontier.
pub open spec fn states_model(q: Seq<ExpState>) -> Seq<StateModel> {
    Seq::new(q.len(), |i: int| state_model(q[i]))
}

/// One flag's suffix rules applied to `w` in order: each applicable rule's
/// result joins `res`; a result that is new, from a cross-product rule, with
/// depth budget left, is queued for another pass.
pub open spec fn sfx_rule_fold(
    rules: Seq<AffixRule>,
    w: Seq<char>,
    depth: int,
    res: Set<Seq<char>>,
    q: Seq<StateModel>,
) -> (Set<Seq<char>>, Seq<StateModel>)
    decreases rules.len(),
{
    if rules.len() == 0 {
        (res, q)
    } else {
        let rule = rules[0];
        let step = if spec_can_apply(rule, w, AffixType::Suffix) {
            let e = spec_apply(rule, w, AffixType::Suffix);
            if !res.contains(e) {
                (
                    res.insert(e),
                    if rule.cross_product && depth < 1 {
                        q.push(StateModel { word: e, has_suffix: true, depth: depth + 1 })
                    } else {
                        q
                    },
                )
            } else {
                (res, q)
            }
        } else {
            (res, q)
        };
        sfx_rule_fold(rules.skip(1), w, depth, step.0, step.1)
    }
}

/// The suffix pass of one state: every flag's suffix rules in flag order.
pub open spec fn sfx_flags_fold(
    sfx: Seq<FlagRules>,
    flags: Seq<Seq<char>>,
    w: Seq<char>,
    depth: int,
    res: Set<Seq<char>>,
    q: Seq<StateModel>,
) -> (Set<Seq<char>>, Seq<StateModel>)
    decreases flags.len(),
{
    if flags.len() == 0 {
        (res, q)
    } else {
        let step = match spec_get_rules(sfx, flags[0]) {
            Some(rules) => sfx_rule_fold(rules, w, depth, res, q),
            None => (res, q),
        };
        sfx_flags_fold(sfx, flags.skip(1), w, depth, step.0, step.1)
    }
}

/// One flag's prefix rules applied to `w` in order; after a suffix pass
/// (`cross_only`), only cross-product rules qualify.  Prefix results are
/// never re-queued.
pub open spec fn pfx_rule_fold(
    rules: Seq<AffixRule>,
    w: Seq<char>,
    cross_only: bool,
    res: Set<Seq<char>>,
) -> Set<Seq<char>>
    decreases rules.len(),
{
    if rules.len() == 0 {
        res
    } else {
        let rule = rules[0];
        let res1 = if (!cross_only || rule.cross_product) && spec_can_apply(
            rule,
            w,
            AffixType::Prefix,
        ) {
            res.insert(spec_apply(rule, w, AffixType::Prefix))
        } else {
            res
        };
        pfx_rule_fold(rules.skip(1), w, cross_only, res1)
    }
}

/// The prefix pass of one state: every flag's prefix rules in flag order.
pub open spec fn pfx_flags_fold(
    pfx: Seq<FlagRules>,
    flags: Seq<Seq<char>>,
    w: Seq<char>,
    cross_only: bool,
    res: Set<Seq<char>>,
) -> Set<Seq<char>>
    decreases flags.len(),
{
    if flags.len() == 0 {
        res
    } else {
        let res1 = match spec_get_rules(pfx, flags[0]) {
            Some(rules) => pfx_rule_fold(rules, w, cross_only, res),
            None => res,
        };
        pfx_flags_fold(pfx, flags.skip(1), w, cross_only, res1)
    }
}

/// The breadth-first walk: pop a state, count the pop against the ceiling,
/// stop everything past the ceiling or past depth two, otherwise run the
/// suffix pass (queueing cross-product results once) and then the prefix
/// pass, and continue with the grown frontier.
pub open spec fn bfs_spec(
    af: AffixFile,
    flags: Seq<Seq<char>>,
    q: Seq<StateModel>,
    res: Set<Seq<char>>,
    iters: int,
) -> Set<Seq<char>>
    decreases MAX_EXPANSION_POPS + 2 - iters,
{
    if q.len() == 0 {
        res
    } else {
        let st = q[0];
        let iters2 = iters + 1;
        if iters2 > MAX_EXPANSION_POPS || st.depth > 2 {
            res
        } else {
            let step = sfx_flags_fold(af.suffixes@, flags, st.word, st.depth, res, q.skip(1));
            let res2 = pfx_flags_fold(af.prefixes@, flags, st.word, st.has_suffix, step.0);
            bfs_spec(af, flags, step.1, res2, iters2)
        }
    }
}

/// The set of forms `expand_with_flags` generates for `w` under `flags`:
/// the closure of the breadth-first walk from `w`, always holding `w`
/// itself, after alias expansion of the flags.
pub open spec fn spec_expand_set(af: AffixFile, w: Seq<char>, flags: Seq<Seq<char>>) -> Set<
    Seq<char>,
> {
    let ef = expand_flags_spec(aliases_model(af.flag_aliases@), flags);
    bfs_spec(
        af,
        ef,
        seq![StateModel { word: w, has_suffix: false, depth: 0 }],
        Set::empty().insert(w),
        0,
    )
}

/// One rule applied to the bare word, for the no-flags fallback.
pub open spec fn all_rules_fold(
    rules: Seq<AffixRule>,
    w: Seq<char>,
    t: AffixType,
    res: Set<Seq<char>>,
) -> Set<Seq<char>>
    decreases rules.len(),
{
    if rules.len() == 0 {
        res
    } else {
        let res1 = if spec_can_apply(rules[0], w, t) {
            res.insert(spec_apply(rules[0], w, t))
        } else {
            res
        };
        all_rules_fold(rules.skip(1), w, t, res1)
    }
}

/// Every rule of every flag of one table applied to the bare word.
pub open spec fn all_table_fold(
    table: Seq<FlagRules>,
    w: Seq<char>,
    t: AffixType,
    res: Set<Seq<char>>,
) -> Set<Seq<char>>
    decreases table.len(),
{
    if table.len() == 0 {
        res
    } else {
        all_table_fold(table.skip(1), w, t, all_rules_fold(table[0].rules@, w, t, res))
    }
}

/// The set `expand_with_all_rules` generates: `w` itself plus every single
/// rule application, with no recursion and no cross-product composition.
pub open spec fn spec_expand_all_set(af: AffixFile, w: Seq<char>) -> Set<Seq<char>> {
    all_table_fold(
        af.suffixes@,
        w,
        AffixType::Suffix,
        all_table_fold(af.prefixes@, w, AffixType::Prefix, Set::empty().insert(w)),
    )
}

/// Whether `c`, looked up in `dict`, forward-expands to `w`.
pub open spec fn regenerates(
    af: AffixFile,
    dict: Dictionary,
    c: Seq<char>,
    w: Seq<char>,
) -> bool {
    match spec_lookup(dict.spec_entries(), c) {
        Some(entry) => spec_expand_set(af, c, entry.flags.deep_view()).contains(w),
        None => false,
    }
}

/// Whether some rule of table `t`, reverse-applied to `w`, yields `c`.
pub open spec fn rev_cand(t: Seq<FlagRules>, w: Seq<char>, c: Seq<char>, at: AffixType) -> bool {
    exists|fi: int, rj: int|
        0 <= fi < t.len() && 0 <= rj < t[fi].rules@.len() && spec_reverse_apply(
            t[fi].rules@[rj],
            w,
            at,
        ) == Some(c)
}

/// The candidate stems `find_base_word` accepts for `w`: the word itself if
/// self-regenerating, one suffix or one prefix removed, or one prefix then
/// one suffix removed — each only when a dictionary hit forward-expands back
/// to `w` exactly.
pub open spec fn base_word_set(af: AffixFile, dict: Dictionary, w: Seq<char>) -> Set<
    Seq<char>,
> {
    Set::new(
        |c: Seq<char>|
            {
                ||| (c == w && regenerates(af, dict, w, w))
                ||| (rev_cand(af.suffixes@, w, c, AffixType::Suffix) && regenerates(
                    af,
                    dict,
                    c,
                    w,
                ))
                ||| (rev_cand(af.prefixes@, w, c, AffixType::Prefix) && regenerates(
                    af,
                    dict,
                    c,
                    w,
                ))
                ||| (exists|m: Seq<char>|
                    rev_cand(af.prefixes@, w, m, AffixType::Prefix) && rev_cand(
                        af.suffixes@,
                        m,
                        c,
                        AffixType::Suffix,
                    ) && regenerates(af, dict, c, w))
            },
    )
}

/// The union of the forward expansions of every accepted stem of `w`.
pub open spec fn base_expansion_set(af: AffixFile, dict: Dictionary, w: Seq<char>) -> Set<
    Seq<char>,
> {
    Set::new(
        |x: Seq<char>|
            exists|c: Seq<char>|
                base_word_set(af, dict, w).contains(c) && regenerates(af, dict, c, w) && (
                match spec_lookup(dict.spec_entries(), c) {
                    Some(entry) => spec_expand_set(af, c, entry.flags.deep_view()).contains(x),
                    None => false,
                }),
    )
}

/// Every accepted stem regenerates the inflected word through its
/// dictionary entry.
pub proof fn lemma_base_word_regenerates(
    af: AffixFile,
    dict: Dictionary,
    w: Seq<char>,
    c: Seq<char>,
)
    requires
        base_word_set(af, dict, w).contains(c),
    ensures
        regenerates(af, dict, c, w),
{
    if c == w && regenerates(af, dict, w, w) {
    } else if rev_cand(af.suffixes@, w, c, AffixType::Suffix) && regenerates(af, dict, c, w) {
    } else if rev_cand(af.prefixes@, w, c, AffixType::Prefix) && regenerates(af, dict, c, w) {
    } else {
        let m = choose|m: Seq<char>|
            rev_cand(af.prefixes@, w, m, AffixType::Prefix) && rev_cand(
                af.suffixes@,
                m,
                c,
                AffixType::Suffix,
            ) && regenerates(af, dict, c, w);
    }
}

/// The morphological expansion engine: a rule table and the walks over it.
#[derive(Clone)]
pub struct WordExpander {
    pub affix_file: Option<AffixFile>,
}

impl WordExpander {
    /// An engine with no rule table attached.
    pub fn new() -> (r: Self)
        ensures
            r.affix_file is None,
    {
        WordExpander { affix_file: None }
    }

    /// Attaches the rule table every later operation reads.
    pub fn set_affix_file(&mut self, affix_file: AffixFile)
        ensures
            final(self).affix_file == Some(affix_file),
    {
        self.affix_file = Some(affix_file);
    }

    /// Whether a rule table is attached.
    pub fn has_affix_file(&self) -> (r: bool)
        ensures
            r == (self.affix_file is Some),
    {
        self.affix_file.is_some()
    }

    /// Expands a word with no flag information: the fallback walk over every
    /// rule of every flag.
    pub fn expand(&self, word: &str) -> (r: Result<Vec<String>, RunmunchError>)
        ensures
            self.affix_file is None ==> r == Err::<Vec<String>, RunmunchError>(
                RunmunchError::NoAffixFile,
            ),
            (self.affix_file matches Some(af) ==> r matches Ok(v) && {
                &&& v.deep_view().to_set() == spec_expand_all_set(af, word@)
                &&& v.deep_view().to_set().contains(word@)
                &&& text::sorted_le(v.deep_view())
                &&& text::distinct_seq(v.deep_view())
            }),
    {
        self.expand_with_all_rules(word)
    }

    /// Tries every rule in both tables once against the bare word: no
    /// recursion, no cross-product.  The result always holds the word
    /// itself, sorted in code-point order without duplicates.
    pub fn expand_with_all_rules(&self, word: &str) -> (r: Result<Vec<String>, RunmunchError>)
        ensures
            self.affix_file is None ==> r == Err::<Vec<String>, RunmunchError>(
                RunmunchError::NoAffixFile,
            ),
            (self.affix_file matches Some(af) ==> r matches Ok(v) && {
                &&& v.deep_view().to_set() == spec_expand_all_set(af, word@)
                &&& v.deep_view().to_set().contains(word@)
                &&& text::sorted_le(v.deep_view())
                &&& text::distinct_seq(v.deep_view())
            }),
    {
        let af = match &self.affix_file {
            Some(af) => af,
            None => {
                return Err(RunmunchError::NoAffixFile);
            },
        };
        let mut results: Vec<String> = Vec::new();
        proof {
            assert(results.deep_view() =~= Seq::<Seq<char>>::empty());
        }
        text::insert_unique(&mut results, word.to_owned());
        proof {
            assert(Seq::<Seq<char>>::empty().to_set() =~= Set::<Seq<char>>::empty());
            text::lemma_push_to_set(Seq::<Seq<char>>::empty(), word@);
            assert(results.deep_view().to_set() =~= Set::empty().insert(word@));
        }
        Self::apply_all_table(&af.prefixes, word, AffixType::Prefix, &mut results);
        Self::apply_all_table(&af.suffixes, word, AffixType::Suffix, &mut results);
        let sorted = text::sort_strings(&results);
        Ok(sorted)
    }

    /// Applies every rule of one table once to `word`, gathering results.
    fn apply_all_table(
        table: &Vec<FlagRules>,
        word: &str,
        t: AffixType,
        results: &mut Vec<String>,
    )
        ensures
            final(results).deep_view().to_set() == all_table_fold(
                table@,
                word@,
                t,
                old(results).deep_view().to_set(),
            ),
            text::distinct_seq(old(results).deep_view()) ==> text::distinct_seq(
                final(results).deep_view(),
            ),
            (forall|x: Seq<char>|
                old(results).deep_view().to_set().contains(x) ==> final(results).deep_view().to_set().contains(x)),

    {
        let ghost res0 = results.deep_view().to_set();
        let mut ti: usize = 0;
        proof {
            assert(table@.skip(0) =~= table@);
        }
        while ti < table.len()
            invariant
                ti <= table@.len(),
                all_table_fold(table@.skip(ti as int), word@, t, results.deep_view().to_set())
                    == all_table_fold(table@, word@, t, res0),
                text::distinct_seq(old(results).deep_view()) ==> text::distinct_seq(
                    results.deep_view(),
                ),
                forall|x: Seq<char>|
                    res0.contains(x) ==> results.deep_view().to_set().contains(x),
                res0 == old(results).deep_view().to_set(),
            decreases table@.len() - ti,
        {
            proof {
                assert(table@.skip(ti as int)[0] == table@[ti as int]);
                assert(table@.skip(ti as int).skip(1) =~= table@.skip(ti as int + 1));
            }
            let rules = &table[ti].rules;
            let ghost set_entry = results.deep_view().to_set();
            let mut ri: usize = 0;
            proof {
                assert(rules@.skip(0) =~= rules@);
            }
            while ri < rules.len()
                invariant
                    ri <= rules@.len(),
                    all_rules_fold(
                        rules@.skip(ri as int),
                        word@,
                        t,
                        results.deep_view().to_set(),
                    ) == all_rules_fold(rules@, word@, t, set_entry),
                    text::distinct_seq(old(results).deep_view()) ==> text::distinct_seq(
                        results.deep_view(),
                    ),
                    forall|x: Seq<char>|
                        res0.contains(x) ==> results.deep_view().to_set().contains(x),
                    res0 == old(results).deep_view().to_set(),
                decreases rules@.len() - ri,
            {
                proof {
                    assert(rules@.skip(ri as int)[0] == rules@[ri as int]);
                    assert(rules@.skip(ri as int).skip(1) =~= rules@.skip(ri as int + 1));
                }
                let rule = &rules[ri];
                if rule.can_apply(word, &t) {
                    let expanded = rule.apply(word, &t);
                    let ghost before = results.deep_view();
                    let added = text::insert_unique(results, expanded);
                    proof {
                        if added {
                            text::lemma_push_to_set(before, spec_apply(*rule, word@, t));
                        } else {
                            assert(before.to_set().insert(spec_apply(*rule, word@, t))
                                =~= before.to_set());
                        }
                    }
                }
                ri += 1;
            }
            proof {
                assert(rules@.skip(rules@.len() as int) =~= Seq::<AffixRule>::empty());
            }
            ti += 1;
        }
        proof {
            assert(table@.skip(table@.len() as int) =~= Seq::<FlagRules>::empty());
        }
    }

    /// Expands `word` under `flags`: alias expansion, then the bounded
    /// breadth-first closure.  The result always holds `word` itself,
    /// sorted in code-point order without duplicates.
    pub fn expand_with_flags(&self, word: &str, flags: &[String]) -> (r: Result<
        Vec<String>,
        RunmunchError,
    >)
        ensures
            self.affix_file is None ==> r == Err::<Vec<String>, RunmunchError>(
                RunmunchError::NoAffixFile,
            ),
            (self.affix_file matches Some(af) ==> r matches Ok(v) && {
                &&& v.deep_view().to_set() == spec_expand_set(af, word@, flags.deep_view())
                &&& v.deep_view().to_set().contains(word@)
                &&& text::sorted_le(v.deep_view())
                &&& text::distinct_seq(v.deep_view())
            }),
    {
        let af = match &self.affix_file {
            Some(af) => af,
            None => {
                return Err(RunmunchError::NoAffixFile);
            },
        };
        let expanded_flags = af.expand_flags(flags);
        let ghost ef = expanded_flags.deep_view();
        let ghost target = spec_expand_set(*af, word@, flags.deep_view());
        let mut results: Vec<String> = Vec::new();
        proof {
            assert(results.deep_view() =~= Seq::<Seq<char>>::empty());
        }
        text::insert_unique(&mut results, word.to_owned());
        proof {
            assert(Seq::<Seq<char>>::empty().to_set() =~= Set::<Seq<char>>::empty());
            text::lemma_push_to_set(Seq::<Seq<char>>::empty(), word@);
            assert(results.deep_view().to_set() =~= Set::empty().insert(word@));
        }
        let mut queue: Vec<ExpState> = Vec::new();
        queue.push(ExpState { word: word.to_owned(), has_suffix: false, depth: 0 });
        let mut head: usize = 0;
        let mut iterations: usize = 0;
        proof {
            assert(states_model(queue@.skip(0)) =~= seq![
                StateModel { word: word@, has_suffix: false, depth: 0 },
            ]);
        }
        while head < queue.len()
            invariant_except_break
                head <= queue@.len(),
                iterations <= MAX_EXPANSION_POPS,
                ef == expanded_flags.deep_view(),
                text::distinct_seq(results.deep_view()),
                results.deep_view().to_set().contains(word@),
                bfs_spec(
                    *af,
                    ef,
                    states_model(queue@.skip(head as int)),
                    results.deep_view().to_set(),
                    iterations as int,
                ) == target,
            ensures
                results.deep_view().to_set() == target,
                text::distinct_seq(results.deep_view()),
                results.deep_view().to_set().contains(word@),
            decreases MAX_EXPANSION_POPS + 1 - iterations,
        {
            let ghost it0 = iterations as int;
            let ghost qm = states_model(queue@.skip(head as int));
            let ghost res_in = results.deep_view().to_set();
            let st_word = queue[head].word.clone();
            let st_has_suffix = queue[head].has_suffix;
            let st_depth = queue[head].depth;
            proof {
                assert(qm[0] == state_model(queue@[head as int]));
            }
            head += 1;
            if iterations >= MAX_EXPANSION_POPS {
                proof {
                    assert(bfs_spec(*af, ef, qm, res_in, it0) == res_in);
                }
                break ;
            }
            iterations += 1;
            if st_depth > 2 {
                proof {
                    assert(bfs_spec(*af, ef, qm, res_in, it0) == res_in);
                }
                break ;
            }
            let ghost qm_tail = states_model(queue@.skip(head as int));
            proof {
                assert(qm.skip(1) =~= qm_tail);
            }
            // suffix pass
            let mut fi: usize = 0;
            proof {
                assert(ef.skip(0) =~= ef);
            }
            while fi < expanded_flags.len()
                invariant
                    fi <= expanded_flags@.len(),
                    ef == expanded_flags.deep_view(),
                    ef.len() == expanded_flags@.len(),
                    head <= queue@.len(),
                    0 < qm.len(),
                    st_word@ == qm[0].word,
                    st_depth as int == qm[0].depth,
                    text::distinct_seq(results.deep_view()),
                    results.deep_view().to_set().contains(word@),
                    sfx_flags_fold(
                        af.suffixes@,
                        ef.skip(fi as int),
                        st_word@,
                        st_depth as int,
                        results.deep_view().to_set(),
                        states_model(queue@.skip(head as int)),
                    ) == sfx_flags_fold(
                        af.suffixes@,
                        ef,
                        st_word@,
                        st_depth as int,
                        res_in,
                        qm.skip(1),
                    ),
                decreases expanded_flags@.len() - fi,
            {
                proof {
                    assert(ef.skip(fi as int)[0] == ef[fi as int]);
                    assert(ef.skip(fi as int).skip(1) =~= ef.skip(fi as int + 1));
                    assert(ef[fi as int] == expanded_flags@[fi as int]@);
                }
                match af.get_suffix_rules(expanded_flags[fi].as_str()) {
                    Some(rules) => {
                        let nrules = rules.len();
                        let ghost rv = rules@;
                        let ghost set_entry = results.deep_view().to_set();
                        let ghost q_entry = states_model(queue@.skip(head as int));
                        let mut ri: usize = 0;
                        proof {
                            assert(rv.skip(0) =~= rv);
                        }
                        while ri < nrules
                            invariant
                                ri <= rv.len(),
                                nrules == rv.len(),
                                rv == rules@,
                                head <= queue@.len(),
                                0 < qm.len(),
                                st_word@ == qm[0].word,
                                st_depth as int == qm[0].depth,
                                text::distinct_seq(results.deep_view()),
                                results.deep_view().to_set().contains(word@),
                                sfx_rule_fold(
                                    rv.skip(ri as int),
                                    st_word@,
                                    st_depth as int,
                                    results.deep_view().to_set(),
                                    states_model(queue@.skip(head as int)),
                                ) == sfx_rule_fold(
                                    rv,
                                    st_word@,
                                    st_depth as int,
                                    set_entry,
                                    q_entry,
                                ),
                            decreases rv.len() - ri,
                        {
                            proof {
                                assert(rv.skip(ri as int)[0] == rv[ri as int]);
                                assert(rv.skip(ri as int).skip(1) =~= rv.skip(ri as int + 1));
                            }
                            let rule = &rules[ri];
                            if rule.can_apply(st_word.as_str(), &AffixType::Suffix) {
                                let expanded = rule.apply(st_word.as_str(), &AffixType::Suffix);
                                let ghost before = results.deep_view();
                                let cross = rule.cross_product;
                                let added = text::insert_unique(&mut results, expanded.clone());
                                proof {
                                    if added {
                                        text::lemma_push_to_set(before, expanded@);
                                    } else {
                                        assert(before.to_set().insert(expanded@) =~= before.to_set());
                                    }
                                }
                                if added && cross && st_depth < 1 {
                                    let ghost qbefore = states_model(queue@.skip(head as int));
                                    queue.push(
                                        ExpState {
                                            word: expanded,
                                            has_suffix: true,
                                            depth: st_depth + 1,
                                        },
                                    );
                                    proof {
                                        assert(states_model(queue@.skip(head as int))
                                            =~= qbefore.push(
                                            StateModel {
                                                word: spec_apply(
                                                    rv[ri as int],
                                                    st_word@,
                                                    AffixType::Suffix,
                                                ),
                                                has_suffix: true,
                                                depth: st_depth as int + 1,
                                            },
                                        ));
                                    }
                                }
                            }
                            ri += 1;
                        }
                        proof {
                            assert(rv.skip(rv.len() as int) =~= Seq::<AffixRule>::empty());
                        }
                    },
                    None => {
                    },
                }
                fi += 1;
            }
            proof {
                assert(ef.skip(ef.len() as int) =~= Seq::<Seq<char>>::empty());
            }
            let ghost after_sfx_set = results.deep_view().to_set();
            let ghost after_sfx_q = states_model(queue@.skip(head as int));
            // prefix pass
            let mut fi2: usize = 0;
            proof {
                assert(ef.skip(0) =~= ef);
            }
            while fi2 < expanded_flags.len()
                invariant
                    fi2 <= expanded_flags@.len(),
                    ef == expanded_flags.deep_view(),
                    ef.len() == expanded_flags@.len(),
                    0 < qm.len(),
                    head <= queue@.len(),
                    states_model(queue@.skip(head as int)) == after_sfx_q,
                    st_word@ == qm[0].word,
                    st_has_suffix == qm[0].has_suffix,
                    text::distinct_seq(results.deep_view()),
                    results.deep_view().to_set().contains(word@),
                    pfx_flags_fold(
                        af.prefixes@,
                        ef.skip(fi2 as int),
                        st_word@,
                        st_has_suffix,
                        results.deep_view().to_set(),
                    ) == pfx_flags_fold(af.prefixes@, ef, st_word@, st_has_suffix, after_sfx_set),
                decreases expanded_flags@.len() - fi2,
            {
                proof {
                    assert(ef.skip(fi2 as int)[0] == ef[fi2 as int]);
                    assert(ef.skip(fi2 as int).skip(1) =~= ef.skip(fi2 as int + 1));
                    assert(ef[fi2 as int] == expanded_flags@[fi2 as int]@);
                }
                match af.get_prefix_rules(expanded_flags[fi2].as_str()) {
                    Some(rules) => {
                        let nrules = rules.len();
                        let ghost rv = rules@;
                        let ghost set_entry = results.deep_view().to_set();
                        let mut ri: usize = 0;
                        proof {
                            assert(rv.skip(0) =~= rv);
                        }
                        while ri < nrules
                            invariant
                                ri <= rv.len(),
                                nrules == rv.len(),
                                rv == rules@,
                                0 < qm.len(),
                                head <= queue@.len(),
                                states_model(queue@.skip(head as int)) == after_sfx_q,
                                st_word@ == qm[0].word,
                                st_has_suffix == qm[0].has_suffix,
                                text::distinct_seq(results.deep_view()),
                                results.deep_view().to_set().contains(word@),
                                pfx_rule_fold(
                                    rv.skip(ri as int),
                                    st_word@,
                                    st_has_suffix,
                                    results.deep_view().to_set(),
                                ) == pfx_rule_fold(rv, st_word@, st_has_suffix, set_entry),
                            decreases rv.len() - ri,
                        {
                            proof {
                                assert(rv.skip(ri as int)[0] == rv[ri as int]);
                                assert(rv.skip(ri as int).skip(1) =~= rv.skip(ri as int + 1));
                            }
                            let rule = &rules[ri];
                            let qualifies = !st_has_suffix || rule.cross_product;
                            if qualifies && rule.can_apply(st_word.as_str(), &AffixType::Prefix) {
                                let expanded = rule.apply(st_word.as_str(), &AffixType::Prefix);
                                let ghost before = results.deep_view();
                                let added = text::insert_unique(&mut results, expanded);
                                proof {
                                    if added {
                                        text::lemma_push_to_set(
                                            before,
                                            spec_apply(rv[ri as int], st_word@, AffixType::Prefix),
                                        );
                                    } else {
                                        assert(before.to_set().insert(
                                            spec_apply(rv[ri as int], st_word@, AffixType::Prefix),
                                        ) =~= before.to_set());
                                    }
                                }
                            }
                            ri += 1;
                        }
                        proof {
                            assert(rv.skip(rv.len() as int) =~= Seq::<AffixRule>::empty());
                        }
                    },
                    None => {
                    },
                }
                fi2 += 1;
            }
            proof {
                assert(ef.skip(ef.len() as int) =~= Seq::<Seq<char>>::empty());
                let step = sfx_flags_fold(
                    af.suffixes@,
                    ef,
                    st_word@,
                    st_depth as int,
                    res_in,
                    qm.skip(1),
                );
                assert(after_sfx_set == step.0 && after_sfx_q == step.1);
                assert(results.deep_view().to_set() == pfx_flags_fold(
                    af.prefixes@,
                    ef,
                    st_word@,
                    st_has_suffix,
                    step.0,
                ));
                assert(states_model(queue@.skip(head as int)) == step.1);
                assert(bfs_spec(*af, ef, qm, res_in, it0) == bfs_spec(
                    *af,
                    ef,
                    states_model(queue@.skip(head as int)),
                    results.deep_view().to_set(),
                    iterations as int,
                ));
            }
        }
        let sorted = text::sort_strings(&results);
        Ok(sorted)
    }
}

} // verus!

verus! {

/// [`rev_cand`] restricted to rules before position `(ti, rj)` of the table.
pub open spec fn rev_cand_upto(
    t: Seq<FlagRules>,
    w: Seq<char>,
    c: Seq<char>,
    at: AffixType,
    ti: int,
    rj: int,
) -> bool {
    exists|fi: int, k: int|
        0 <= fi < t.len() && 0 <= k < t[fi].rules@.len() && (fi < ti || (fi == ti && k < rj))
            && spec_reverse_apply(t[fi].rules@[k], w, at) == Some(c)
}

impl WordExpander {
    /// Reverse-applies every rule of `table` to `from_word` and keeps each
    /// candidate whose dictionary entry forward-expands to `target_word`.
    fn collect_reverse_candidates(
        &self,
        table: &Vec<FlagRules>,
        from_word: &str,
        at: AffixType,
        target_word: &str,
        dictionary: &Dictionary,
        results: &mut Vec<String>,
    )
        requires
            self.affix_file is Some,
        ensures
            (forall|x: Seq<char>|
                final(results).deep_view().to_set().contains(x) <==> (old(
                    results,
                ).deep_view().to_set().contains(x) || (rev_cand(table@, from_word@, x, at)
                    && regenerates(
                    self.affix_file->Some_0,
                    *dictionary,
                    x,
                    target_word@,
                )))),
            text::distinct_seq(old(results).deep_view()) ==> text::distinct_seq(
                final(results).deep_view(),
            ),
    {
        let ghost af = self.affix_file->Some_0;
        let ghost res0 = results.deep_view().to_set();
        let mut ti: usize = 0;
        while ti < table.len()
            invariant
                ti <= table@.len(),
                self.affix_file is Some,
                af == self.affix_file->Some_0,
                res0 == old(results).deep_view().to_set(),
                text::distinct_seq(old(results).deep_view()) ==> text::distinct_seq(
                    results.deep_view(),
                ),
                (forall|x: Seq<char>|
                    results.deep_view().to_set().contains(x) ==> (res0.contains(x) || (
                    rev_cand(table@, from_word@, x, at) && regenerates(
                        af,
                        *dictionary,
                        x,
                        target_word@,
                    )))),
                (forall|c: Seq<char>|
                    (rev_cand_upto(table@, from_word@, c, at, ti as int, 0) && regenerates(
                        af,
                        *dictionary,
                        c,
                        target_word@,
                    )) ==> results.deep_view().to_set().contains(c)),
                (forall|x: Seq<char>|
                    res0.contains(x) ==> results.deep_view().to_set().contains(x)),
            decreases table@.len() - ti,
        {
            let rules = &table[ti].rules;
            let nrules = rules.len();
            let ghost rv = rules@;
            let mut rj: usize = 0;
            proof {
                assert forall|c: Seq<char>|
                    rev_cand_upto(table@, from_word@, c, at, ti as int, 0) implies rev_cand_upto(
                    table@,
                    from_word@,
                    c,
                    at,
                    ti as int,
                    0,
                ) by {}
            }
            while rj < nrules
                invariant
                    rj <= rv.len(),
                    nrules == rv.len(),
                    rv == rules@,
                    ti < table@.len(),
                    rv == table@[ti as int].rules@,
                    self.affix_file is Some,
                    af == self.affix_file->Some_0,
                    res0 == old(results).deep_view().to_set(),
                    text::distinct_seq(old(results).deep_view()) ==> text::distinct_seq(
                        results.deep_view(),
                    ),
                    (forall|x: Seq<char>|
                        results.deep_view().to_set().contains(x) ==> (res0.contains(x) || (
                        rev_cand(table@, from_word@, x, at) && regenerates(
                            af,
                            *dictionary,
                            x,
                            target_word@,
                        )))),
                    (forall|c: Seq<char>|
                        (rev_cand_upto(table@, from_word@, c, at, ti as int, rj as int)
                            && regenerates(af, *dictionary, c, target_word@))
                            ==> results.deep_view().to_set().contains(c)),
                    (forall|x: Seq<char>|
                        res0.contains(x) ==> results.deep_view().to_set().contains(x)),
                decreases rv.len() - rj,
            {
                let rule = &rules[rj];
                match rule.reverse_apply(from_word, &at) {
                    Some(candidate) => {
                        proof {
                            assert(spec_reverse_apply(rv[rj as int], from_word@, at) == Some(
                                candidate@,
                            ));
                        }
                        let mut verified = false;
                        match dictionary.get_entry(candidate.as_str()) {
                            Some(entry) => {
                                let flags_slice = entry.flags.as_slice();
                                proof {
                                    assert(flags_slice.deep_view() =~= entry.flags.deep_view());
                                }
                                let expanded = self.expand_with_flags(
                                    candidate.as_str(),
                                    flags_slice,
                                );
                                match expanded {
                                    Ok(v) => {
                                        if text::vec_contains_str(&v, target_word) {
                                            verified = true;
                                            proof {
                                                assert(regenerates(
                                                    af,
                                                    *dictionary,
                                                    candidate@,
                                                    target_word@,
                                                ));
                                            }
                                        } else {
                                            proof {
                                                assert(!regenerates(
                                                    af,
                                                    *dictionary,
                                                    candidate@,
                                                    target_word@,
                                                ));
                                            }
                                        }
                                    },
                                    Err(_) => {
                                        proof {
                                            assert(false);
                                        }
                                    },
                                }
                            },
                            None => {
                                proof {
                                    assert(!regenerates(
                                        af,
                                        *dictionary,
                                        candidate@,
                                        target_word@,
                                    ));
                                }
                            },
                        }
                        if verified {
                            let ghost before = results.deep_view();
                            let ghost cv = candidate@;
                            let added = text::insert_unique(results, candidate);
                            proof {
                                if added {
                                    text::lemma_push_to_set(before, cv);
                                }
                                assert(results.deep_view().to_set().contains(cv));
                                assert(rev_cand(table@, from_word@, cv, at));
                            }
                        }
                        proof {
                            let cv0 = candidate@;
                            assert forall|c: Seq<char>|
                                rev_cand_upto(
                                    table@,
                                    from_word@,
                                    c,
                                    at,
                                    ti as int,
                                    rj as int + 1,
                                ) && regenerates(af, *dictionary, c, target_word@)
                                implies results.deep_view().to_set().contains(c) by {
                                let (fi, k): (int, int) = choose|fi: int, k: int|
                                    0 <= fi < table@.len() && 0 <= k
                                        < table@[fi].rules@.len() && (fi < ti as int || (fi
                                        == ti as int && k < rj as int + 1))
                                        && spec_reverse_apply(
                                        table@[fi].rules@[k],
                                        from_word@,
                                        at,
                                    ) == Some(c);
                                if fi < ti as int || (fi == ti as int && k < rj as int) {
                                    assert(rev_cand_upto(
                                        table@,
                                        from_word@,
                                        c,
                                        at,
                                        ti as int,
                                        rj as int,
                                    ));
                                } else {
                                    assert(c == cv0);
                                }
                            }
                        }
                    },
                    None => {
                        proof {
                            assert forall|c: Seq<char>|
                                rev_cand_upto(
                                    table@,
                                    from_word@,
                                    c,
                                    at,
                                    ti as int,
                                    rj as int + 1,
                                ) && regenerates(af, *dictionary, c, target_word@)
                                implies results.deep_view().to_set().contains(c) by {
                                let (fi, k): (int, int) = choose|fi: int, k: int|
                                    0 <= fi < table@.len() && 0 <= k
                                        < table@[fi].rules@.len() && (fi < ti as int || (fi
                                        == ti as int && k < rj as int + 1))
                                        && spec_reverse_apply(
                                        table@[fi].rules@[k],
                                        from_word@,
                                        at,
                                    ) == Some(c);
                                if fi < ti as int || (fi == ti as int && k < rj as int) {
                                    assert(rev_cand_upto(
                                        table@,
                                        from_word@,
                                        c,
                                        at,
                                        ti as int,
                                        rj as int,
                                    ));
                                }
                            }
                        }
                    },
                }
                rj += 1;
            }
            proof {
                assert forall|c: Seq<char>|
                    rev_cand_upto(table@, from_word@, c, at, ti as int + 1, 0) implies rev_cand_upto(
                    table@,
                    from_word@,
                    c,
                    at,
                    ti as int,
                    rv.len() as int,
                ) by {
                    let (fi, k): (int, int) = choose|fi: int, k: int|
                        0 <= fi < table@.len() && 0 <= k < table@[fi].rules@.len() && (fi < ti
                            as int + 1 || (fi == ti as int + 1 && k < 0))
                            && spec_reverse_apply(table@[fi].rules@[k], from_word@, at)
                            == Some(c);
                    assert(fi < ti as int || (fi == ti as int && k < rv.len() as int));
                }
            }
            ti += 1;
        }
        proof {
            assert forall|x: Seq<char>|
                rev_cand(table@, from_word@, x, at) && regenerates(
                    af,
                    *dictionary,
                    x,
                    target_word@,
                ) implies results.deep_view().to_set().contains(x) by {
                let (fi, k): (int, int) = choose|fi: int, k: int|
                    0 <= fi < table@.len() && 0 <= k < table@[fi].rules@.len()
                        && spec_reverse_apply(table@[fi].rules@[k], from_word@, at) == Some(
                        x,
                    );
                assert(rev_cand_upto(table@, from_word@, x, at, table@.len() as int, 0));
            }
        }
    }

    /// Every partial form one prefix-rule reversal of `word` yields.
    fn collect_prefix_mids(table: &Vec<FlagRules>, word: &str) -> (r: Vec<String>)
        ensures
            forall|m: Seq<char>|
                r.deep_view().contains(m) <==> rev_cand(
                    table@,
                    word@,
                    m,
                    AffixType::Prefix,
                ),
    {
        let mut out: Vec<String> = Vec::new();
        let mut ti: usize = 0;
        while ti < table.len()
            invariant
                ti <= table@.len(),
                (forall|m: Seq<char>|
                    out.deep_view().contains(m) ==> rev_cand(
                        table@,
                        word@,
                        m,
                        AffixType::Prefix,
                    )),
                (forall|m: Seq<char>|
                    rev_cand_upto(table@, word@, m, AffixType::Prefix, ti as int, 0)
                        ==> out.deep_view().contains(m)),
            decreases table@.len() - ti,
        {
            let rules = &table[ti].rules;
            let nrules = rules.len();
            let ghost rv = rules@;
            let mut rj: usize = 0;
            while rj < nrules
                invariant
                    rj <= rv.len(),
                    nrules == rv.len(),
                    rv == rules@,
                    ti < table@.len(),
                    rv == table@[ti as int].rules@,
                    (forall|m: Seq<char>|
                        out.deep_view().contains(m) ==> rev_cand(
                            table@,
                            word@,
                            m,
                            AffixType::Prefix,
                        )),
                    (forall|m: Seq<char>|
                        rev_cand_upto(table@, word@, m, AffixType::Prefix, ti as int, rj as int)
                            ==> out.deep_view().contains(m)),
                decreases rv.len() - rj,
            {
                let rule = &rules[rj];
                match rule.reverse_apply(word, &AffixType::Prefix) {
                    Some(mid) => {
                        let ghost before = out.deep_view();
                        let ghost mv = mid@;
                        out.push(mid);
                        proof {
                            assert(out.deep_view() =~= before.push(mv));
                            assert(out.deep_view().contains(mv)) by {
                                assert(out.deep_view()[before.len() as int] == mv);
                            }
                            assert(spec_reverse_apply(
                                table@[ti as int].rules@[rj as int],
                                word@,
                                AffixType::Prefix,
                            ) == Some(mv));
                            assert(rev_cand(table@, word@, mv, AffixType::Prefix));
                            assert forall|m: Seq<char>| before.contains(m)
                                implies out.deep_view().contains(m) by {
                                let i = choose|i: int| 0 <= i < before.len() && before[i] == m;
                                assert(out.deep_view()[i] == m);
                            }
                            assert forall|m: Seq<char>| out.deep_view().contains(m)
                                implies rev_cand(table@, word@, m, AffixType::Prefix) by {
                                let i = choose|i: int|
                                    0 <= i < out.deep_view().len() && out.deep_view()[i] == m;
                                if i < before.len() {
                                    assert(before[i] == m);
                                    assert(before.contains(m));
                                } else {
                                    assert(m == mv);
                                }
                            }
                            assert forall|m: Seq<char>|
                                rev_cand_upto(
                                    table@,
                                    word@,
                                    m,
                                    AffixType::Prefix,
                                    ti as int,
                                    rj as int + 1,
                                ) implies out.deep_view().contains(m) by {
                                let (fi, k): (int, int) = choose|fi: int, k: int|
                                    0 <= fi < table@.len() && 0 <= k
                                        < table@[fi].rules@.len() && (fi < ti as int || (fi
                                        == ti as int && k < rj as int + 1))
                                        && spec_reverse_apply(
                                        table@[fi].rules@[k],
                                        word@,
                                        AffixType::Prefix,
                                    ) == Some(m);
                                if fi < ti as int || (fi == ti as int && k < rj as int) {
                                    assert(rev_cand_upto(
                                        table@,
                                        word@,
                                        m,
                                        AffixType::Prefix,
                                        ti as int,
                                        rj as int,
                                    ));
                                    assert(before.contains(m));
                                } else {
                                    assert(m == mv);
                                }
                            }
                        }
                    },
                    None => {
                        proof {
                            assert forall|m: Seq<char>|
                                rev_cand_upto(
                                    table@,
                                    word@,
                                    m,
                                    AffixType::Prefix,
                                    ti as int,
                                    rj as int + 1,
                                ) implies out.deep_view().contains(m) by {
                                let (fi, k): (int, int) = choose|fi: int, k: int|
                                    0 <= fi < table@.len() && 0 <= k
                                        < table@[fi].rules@.len() && (fi < ti as int || (fi
                                        == ti as int && k < rj as int + 1))
                                        && spec_reverse_apply(
                                        table@[fi].rules@[k],
                                        word@,
                                        AffixType::Prefix,
                                    ) == Some(m);
                                if fi < ti as int || (fi == ti as int && k < rj as int) {
                                    assert(rev_cand_upto(
                                        table@,
                                        word@,
                                        m,
                                        AffixType::Prefix,
                                        ti as int,
                                        rj as int,
                                    ));
                                }
                            }
                        }
                    },
                }
                rj += 1;
            }
            proof {
                assert forall|m: Seq<char>|
                    rev_cand_upto(table@, word@, m, AffixType::Prefix, ti as int + 1, 0)
                    implies rev_cand_upto(
                    table@,
                    word@,
                    m,
                    AffixType::Prefix,
                    ti as int,
                    rv.len() as int,
                ) by {
                    let (fi, k): (int, int) = choose|fi: int, k: int|
                        0 <= fi < table@.len() && 0 <= k < table@[fi].rules@.len() && (fi < ti
                            as int + 1 || (fi == ti as int + 1 && k < 0))
                            && spec_reverse_apply(
                            table@[fi].rules@[k],
                            word@,
                            AffixType::Prefix,
                        ) == Some(m);
                    assert(fi < ti as int || (fi == ti as int && k < rv.len() as int));
                }
            }
            ti += 1;
        }
        proof {
            assert forall|m: Seq<char>|
                rev_cand(table@, word@, m, AffixType::Prefix) implies out.deep_view().contains(
                m,
            ) by {
                let (fi, k): (int, int) = choose|fi: int, k: int|
                    0 <= fi < table@.len() && 0 <= k < table@[fi].rules@.len()
                        && spec_reverse_apply(table@[fi].rules@[k], word@, AffixType::Prefix)
                        == Some(m);
                assert(rev_cand_upto(table@, word@, m, AffixType::Prefix, table@.len() as int, 0));
            }
        }
        out
    }

    /// Proposes and verifies base words for `inflected_word`: the word
    /// itself, every one-suffix and one-prefix reversal, and every
    /// prefix-then-suffix reversal, each kept only when its dictionary entry
    /// forward-expands to the word exactly.  Sorted, without duplicates.
    pub fn find_base_word(&self, inflected_word: &str, dictionary: &Dictionary) -> (r: Result<
        Vec<String>,
        RunmunchError,
    >)
        ensures
            self.affix_file is None ==> r == Err::<Vec<String>, RunmunchError>(
                RunmunchError::NoAffixFile,
            ),
            (self.affix_file matches Some(af) ==> r matches Ok(v) && {
                &&& v.deep_view().to_set() == base_word_set(af, *dictionary, inflected_word@)
                &&& text::sorted_le(v.deep_view())
                &&& text::distinct_seq(v.deep_view())
            }),
    {
        let af = match &self.affix_file {
            Some(af) => af,
            None => {
                return Err(RunmunchError::NoAffixFile);
            },
        };
        let mut results: Vec<String> = Vec::new();
        proof {
            assert(results.deep_view() =~= Seq::<Seq<char>>::empty());
        }
        // the word itself, when it regenerates itself
        match dictionary.get_entry(inflected_word) {
            Some(entry) => {
                let flags_slice = entry.flags.as_slice();
                proof {
                    assert(flags_slice.deep_view() =~= entry.flags.deep_view());
                }
                let expanded = self.expand_with_flags(inflected_word, flags_slice);
                match expanded {
                    Ok(v) => {
                        if text::vec_contains_str(&v, inflected_word) {
                            let ghost before = results.deep_view();
                            text::insert_unique(&mut results, inflected_word.to_owned());
                            proof {
                                text::lemma_push_to_set(before, inflected_word@);
                                assert(regenerates(
                                    *af,
                                    *dictionary,
                                    inflected_word@,
                                    inflected_word@,
                                ));
                            }
                        }
                    },
                    Err(_) => {
                        proof {
                            assert(false);
                        }
                    },
                }
            },
            None => {
            },
        }
        let ghost set1 = results.deep_view().to_set();
        proof {
            assert forall|x: Seq<char>| set1.contains(x) implies x == inflected_word@
                && regenerates(*af, *dictionary, inflected_word@, inflected_word@) by {}
            if regenerates(*af, *dictionary, inflected_word@, inflected_word@) {
                assert(set1.contains(inflected_word@));
            }
        }
        self.collect_reverse_candidates(
            &af.suffixes,
            inflected_word,
            AffixType::Suffix,
            inflected_word,
            dictionary,
            &mut results,
        );
        let ghost set2 = results.deep_view().to_set();
        self.collect_reverse_candidates(
            &af.prefixes,
            inflected_word,
            AffixType::Prefix,
            inflected_word,
            dictionary,
            &mut results,
        );
        let ghost set3 = results.deep_view().to_set();
        let mids = Self::collect_prefix_mids(&af.prefixes, inflected_word);
        let ghost mv = mids.deep_view();
        let mut mi: usize = 0;
        while mi < mids.len()
            invariant
                mi <= mids@.len(),
                mv == mids.deep_view(),
                mv.len() == mids@.len(),
                self.affix_file matches Some(af7) && af7 == *af,
                text::distinct_seq(results.deep_view()),
                (forall|x: Seq<char>|
                    results.deep_view().to_set().contains(x) <==> (set3.contains(x) || (
                    exists|k: int|
                        0 <= k < mi && rev_cand(
                            af.suffixes@,
                            mv[k],
                            x,
                            AffixType::Suffix,
                        ) && regenerates(*af, *dictionary, x, inflected_word@)))),
            decreases mids@.len() - mi,
        {
            let ghost before_set = results.deep_view().to_set();
            proof {
                assert(forall|x: Seq<char>|
                    before_set.contains(x) <==> (set3.contains(x) || (exists|k: int|
                        0 <= k < mi && rev_cand(
                            af.suffixes@,
                            mv[k],
                            x,
                            AffixType::Suffix,
                        ) && regenerates(*af, *dictionary, x, inflected_word@))));
            }
            self.collect_reverse_candidates(
                &af.suffixes,
                mids[mi].as_str(),
                AffixType::Suffix,
                inflected_word,
                dictionary,
                &mut results,
            );
            proof {
                assert(mids@[mi as int]@ == mv[mi as int]);
                assert forall|x: Seq<char>|
                    (exists|k: int|
                        0 <= k < mi + 1 && rev_cand(
                            af.suffixes@,
                            mv[k],
                            x,
                            AffixType::Suffix,
                        ) && regenerates(*af, *dictionary, x, inflected_word@))
                    implies results.deep_view().to_set().contains(x) by {
                    let k = choose|k: int|
                        0 <= k < mi + 1 && rev_cand(
                            af.suffixes@,
                            mv[k],
                            x,
                            AffixType::Suffix,
                        ) && regenerates(*af, *dictionary, x, inflected_word@);
                    if k < mi {
                        assert(0 <= k < mi && rev_cand(
                            af.suffixes@,
                            mv[k],
                            x,
                            AffixType::Suffix,
                        ) && regenerates(*af, *dictionary, x, inflected_word@));
                        assert(exists|k2: int|
                            0 <= k2 < mi && rev_cand(
                                af.suffixes@,
                                mv[k2],
                                x,
                                AffixType::Suffix,
                            ) && regenerates(*af, *dictionary, x, inflected_word@));
                        assert(before_set.contains(x));
                    } else {
                        assert(rev_cand(af.suffixes@, mv[mi as int], x, AffixType::Suffix));
                    }
                }
                assert forall|x: Seq<char>|
                    results.deep_view().to_set().contains(x) implies (set3.contains(x) || (
                    exists|k: int|
                        0 <= k < mi + 1 && rev_cand(
                            af.suffixes@,
                            mv[k],
                            x,
                            AffixType::Suffix,
                        ) && regenerates(*af, *dictionary, x, inflected_word@))) by {
                    if !before_set.contains(x) {
                        assert(0 <= (mi as int) < mi + 1 && rev_cand(
                            af.suffixes@,
                            mv[mi as int],
                            x,
                            AffixType::Suffix,
                        ) && regenerates(*af, *dictionary, x, inflected_word@));
                    } else {
                        if !set3.contains(x) {
                            let k = choose|k: int|
                                0 <= k < mi && rev_cand(
                                    af.suffixes@,
                                    mv[k],
                                    x,
                                    AffixType::Suffix,
                                ) && regenerates(*af, *dictionary, x, inflected_word@);
                            assert(0 <= k < mi + 1 && rev_cand(
                                af.suffixes@,
                                mv[k],
                                x,
                                AffixType::Suffix,
                            ) && regenerates(*af, *dictionary, x, inflected_word@));
                        }
                    }
                }
            }
            mi += 1;
        }
        proof {
            let w = inflected_word@;
            let d = *dictionary;
            assert forall|x: Seq<char>| results.deep_view().to_set().contains(x)
                implies base_word_set(*af, d, w).contains(x) by {
                if set3.contains(x) {
                    if set2.contains(x) {
                        if set1.contains(x) {
                        } else {
                            assert(rev_cand(af.suffixes@, w, x, AffixType::Suffix)
                                && regenerates(*af, d, x, w));
                        }
                    } else {
                        assert(rev_cand(af.prefixes@, w, x, AffixType::Prefix) && regenerates(
                            *af,
                            d,
                            x,
                            w,
                        ));
                    }
                } else {
                    let k = choose|k: int|
                        0 <= k < mv.len() && rev_cand(
                            af.suffixes@,
                            mv[k],
                            x,
                            AffixType::Suffix,
                        ) && regenerates(*af, d, x, w);
                    assert(mv.contains(mv[k]));
                    assert(rev_cand(af.prefixes@, w, mv[k], AffixType::Prefix));
                }
            }
            assert forall|x: Seq<char>| base_word_set(*af, d, w).contains(x)
                implies results.deep_view().to_set().contains(x) by {
                if x == w && regenerates(*af, d, w, w) {
                    assert(set1.contains(x));
                } else if rev_cand(af.suffixes@, w, x, AffixType::Suffix) && regenerates(
                    *af,
                    d,
                    x,
                    w,
                ) {
                    assert(set2.contains(x));
                } else if rev_cand(af.prefixes@, w, x, AffixType::Prefix) && regenerates(
                    *af,
                    d,
                    x,
                    w,
                ) {
                    assert(set3.contains(x));
                } else {
                    let m = choose|m: Seq<char>|
                        rev_cand(af.prefixes@, w, m, AffixType::Prefix) && rev_cand(
                            af.suffixes@,
                            m,
                            x,
                            AffixType::Suffix,
                        ) && regenerates(*af, d, x, w);
                    assert(mv.contains(m));
                    let k = choose|k: int| 0 <= k < mv.len() && mv[k] == m;
                    assert(0 <= k < mv.len() && rev_cand(
                        af.suffixes@,
                        mv[k],
                        x,
                        AffixType::Suffix,
                    ) && regenerates(*af, d, x, w));
                }
            }
            assert(results.deep_view().to_set() =~= base_word_set(*af, d, w));
        }
        let sorted = text::sort_strings(&results);
        Ok(sorted)
    }

    /// Expands every recovered base word of `inflected_word` with its
    /// dictionary flags; with no recovered base word, returns the word
    /// alone.  Sorted, without duplicates.
    pub fn find_base_and_expand(&self, inflected_word: &str, dictionary: &Dictionary) -> (r:
        Result<Vec<String>, RunmunchError>)
        ensures
            self.affix_file is None ==> r == Err::<Vec<String>, RunmunchError>(
                RunmunchError::NoAffixFile,
            ),
            (self.affix_file matches Some(af) ==> r matches Ok(v) && {
                &&& text::sorted_le(v.deep_view())
                &&& text::distinct_seq(v.deep_view())
                &&& (base_word_set(af, *dictionary, inflected_word@) == Set::<
                    Seq<char>,
                >::empty() ==> v.deep_view() == seq![inflected_word@])
                &&& (base_word_set(af, *dictionary, inflected_word@) != Set::<
                    Seq<char>,
                >::empty() ==> v.deep_view().to_set() == base_expansion_set(
                    af,
                    *dictionary,
                    inflected_word@,
                ))
            }),
    {
        let af = match &self.affix_file {
            Some(af) => af,
            None => {
                return Err(RunmunchError::NoAffixFile);
            },
        };
        let base_words = match self.find_base_word(inflected_word, dictionary) {
            Ok(v) => v,
            Err(e) => {
                proof {
                    assert(false);
                }
                return Err(e);
            },
        };
        let ghost bws = base_word_set(*af, *dictionary, inflected_word@);
        if base_words.is_empty() {
            proof {
                assert forall|x: Seq<char>| !bws.contains(x) by {
                    if bws.contains(x) {
                        assert(base_words.deep_view().to_set().contains(x));
                        let i = choose|i: int|
                            0 <= i < base_words.deep_view().len() && base_words.deep_view()[i]
                                == x;
                    }
                }
                assert(bws =~= Set::<Seq<char>>::empty());
            }
            let mut out: Vec<String> = Vec::new();
            out.push(inflected_word.to_owned());
            proof {
                assert(out.deep_view() =~= seq![inflected_word@]);
            }
            return Ok(out);
        }
        proof {
            assert(base_words.deep_view().to_set().contains(base_words.deep_view()[0]));
            assert(bws != Set::<Seq<char>>::empty()) by {
                assert(bws.contains(base_words.deep_view()[0]));
            }
        }
        let ghost bv = base_words.deep_view();
        let mut all: Vec<String> = Vec::new();
        proof {
            assert(all.deep_view() =~= Seq::<Seq<char>>::empty());
        }
        let mut bi: usize = 0;
        while bi < base_words.len()
            invariant
                bi <= base_words@.len(),
                bv == base_words.deep_view(),
                bv.len() == base_words@.len(),
                bv.to_set() == bws,
                bws == base_word_set(*af, *dictionary, inflected_word@),
                self.affix_file matches Some(af8) && af8 == *af,
                text::distinct_seq(all.deep_view()),
                (forall|x: Seq<char>|
                    all.deep_view().to_set().contains(x) <==> (exists|k: int|
                        0 <= k < bi && bws.contains(bv[k]) && regenerates(
                            *af,
                            *dictionary,
                            bv[k],
                            inflected_word@,
                        ) && (match spec_lookup(dictionary.spec_entries(), bv[k]) {
                            Some(entry) => spec_expand_set(
                                *af,
                                bv[k],
                                entry.flags.deep_view(),
                            ).contains(x),
                            None => false,
                        }))),
            decreases base_words@.len() - bi,
        {
            let ghost before_set = all.deep_view().to_set();
            let base = &base_words[bi];
            proof {
                assert(bv[bi as int] == base_words@[bi as int]@);
                assert(bv.to_set().contains(bv[bi as int])) by {
                    assert(bv[bi as int] == bv[bi as int]);
                }
                assert(bws.contains(bv[bi as int]));
            }
            match dictionary.get_entry(base.as_str()) {
                Some(entry) => {
                    let flags_slice = entry.flags.as_slice();
                    proof {
                        assert(flags_slice.deep_view() =~= entry.flags.deep_view());
                    }
                    let expanded = self.expand_with_flags(base.as_str(), flags_slice);
                    match expanded {
                        Ok(v) => {
                            let ghost ev = v.deep_view();
                            proof {
                                assert(base@ == bv[bi as int]);
                                assert(ev.to_set() == spec_expand_set(
                                    *af,
                                    bv[bi as int],
                                    entry.flags.deep_view(),
                                ));
                            }
                            let nv = v.len();
                            let mut ei: usize = 0;
                            while ei < nv
                                invariant
                                    ei <= ev.len(),
                                    nv == ev.len(),
                                    ev == v.deep_view(),
                                    nv == v@.len(),
                                    bi < bv.len(),
                                    bws.contains(bv[bi as int]),
                                    bws == base_word_set(*af, *dictionary, inflected_word@),
                                    spec_lookup(dictionary.spec_entries(), bv[bi as int])
                                        == Some(*entry),
                                    ev.to_set() == spec_expand_set(
                                        *af,
                                        bv[bi as int],
                                        entry.flags.deep_view(),
                                    ),
                                    text::distinct_seq(all.deep_view()),
                                    all.deep_view().to_set() =~= before_set.union(
                                        ev.take(ei as int).to_set(),
                                    ),
                                    (forall|x: Seq<char>|
                                        before_set.contains(x) <==> (exists|k: int|
                                            0 <= k < bi && bws.contains(bv[k]) && regenerates(
                                                *af,
                                                *dictionary,
                                                bv[k],
                                                inflected_word@,
                                            ) && (match spec_lookup(
                                                dictionary.spec_entries(),
                                                bv[k],
                                            ) {
                                                Some(entry2) => spec_expand_set(
                                                    *af,
                                                    bv[k],
                                                    entry2.flags.deep_view(),
                                                ).contains(x),
                                                None => false,
                                            }))),
                                decreases ev.len() - ei,
                            {
                                let ghost before = all.deep_view();
                                let added = text::insert_unique(&mut all, v[ei].clone());
                                proof {
                                    if added {
                                        text::lemma_push_to_set(before, ev[ei as int]);
                                    }
                                    assert(ev.take(ei as int + 1) =~= ev.take(ei as int).push(
                                        ev[ei as int],
                                    ));
                                    text::lemma_push_to_set(ev.take(ei as int), ev[ei as int]);
                                    assert(all.deep_view().to_set() =~= before_set.union(
                                        ev.take(ei as int + 1).to_set(),
                                    ));
                                }
                                ei += 1;
                            }
                            proof {
                                assert(ev.take(ev.len() as int) =~= ev);
                                let w = inflected_word@;
                                let b = bv[bi as int];
                                lemma_base_word_regenerates(*af, *dictionary, w, b);
                                assert forall|x: Seq<char>|
                                    all.deep_view().to_set().contains(x) implies (exists|k: int|
                                    0 <= k < bi + 1 && bws.contains(bv[k]) && regenerates(
                                        *af,
                                        *dictionary,
                                        bv[k],
                                        w,
                                    ) && (match spec_lookup(dictionary.spec_entries(), bv[k]) {
                                        Some(entry2) => spec_expand_set(
                                            *af,
                                            bv[k],
                                            entry2.flags.deep_view(),
                                        ).contains(x),
                                        None => false,
                                    })) by {
                                    if before_set.contains(x) {
                                        let k = choose|k: int|
                                            0 <= k < bi && bws.contains(bv[k]) && regenerates(
                                                *af,
                                                *dictionary,
                                                bv[k],
                                                w,
                                            ) && (match spec_lookup(
                                                dictionary.spec_entries(),
                                                bv[k],
                                            ) {
                                                Some(entry2) => spec_expand_set(
                                                    *af,
                                                    bv[k],
                                                    entry2.flags.deep_view(),
                                                ).contains(x),
                                                None => false,
                                            });
                                        assert(0 <= k < bi + 1);
                                    } else {
                                        assert(ev.to_set().contains(x));
                                        assert(0 <= (bi as int) < bi + 1 && bws.contains(b)
                                            && regenerates(*af, *dictionary, b, w));
                                    }
                                }
                            }
                        },
                        Err(_) => {
                            proof {
                                assert(false);
                            }
                        },
                    }
                },
                None => {
                    proof {
                        let b = bv[bi as int];
                        lemma_base_word_regenerates(*af, *dictionary, inflected_word@, b);
                        assert(false);
                    }
                },
            }
            bi += 1;
        }
        proof {
            let w = inflected_word@;
            assert forall|x: Seq<char>|
                all.deep_view().to_set().contains(x) <==> base_expansion_set(
                    *af,
                    *dictionary,
                    w,
                ).contains(x) by {
                if all.deep_view().to_set().contains(x) {
                    let k = choose|k: int|
                        0 <= k < bv.len() && bws.contains(bv[k]) && regenerates(
                            *af,
                            *dictionary,
                            bv[k],
                            w,
                        ) && (match spec_lookup(dictionary.spec_entries(), bv[k]) {
                            Some(entry) => spec_expand_set(
                                *af,
                                bv[k],
                                entry.flags.deep_view(),
                            ).contains(x),
                            None => false,
                        });
                }
                if base_expansion_set(*af, *dictionary, w).contains(x) {
                    let c = choose|c: Seq<char>|
                        bws.contains(c) && regenerates(*af, *dictionary, c, w) && (
                        match spec_lookup(dictionary.spec_entries(), c) {
                            Some(entry) => spec_expand_set(
                                *af,
                                c,
                                entry.flags.deep_view(),
                            ).contains(x),
                            None => false,
                        });
                    assert(bv.to_set().contains(c));
                    let k = choose|k: int| 0 <= k < bv.len() && bv[k] == c;
                }
            }
            assert(all.deep_view().to_set() =~= base_expansion_set(*af, *dictionary, w));
        }
        let sorted = text::sort_strings(&all);
        Ok(sorted)
    }
}

} // verus!

verus! {

/// Whether `rule` is a suffix rule reachable through some flag of `ef`.
pub open spec fn suffix_rule_of(af: AffixFile, ef: Seq<Seq<char>>, rule: AffixRule) -> bool {
    exists|fi: int, ri: int|
        0 <= fi < ef.len() && spec_get_rules(af.suffixes@, ef[fi]) is Some && 0 <= ri
            < spec_get_rules(af.suffixes@, ef[fi])->Some_0.len() && spec_get_rules(
            af.suffixes@,
            ef[fi],
        )->Some_0[ri] == rule
}

/// Whether `rule` is a prefix rule reachable through some flag of `ef`.
pub open spec fn prefix_rule_of(af: AffixFile, ef: Seq<Seq<char>>, rule: AffixRule) -> bool {
    exists|fi: int, ri: int|
        0 <= fi < ef.len() && spec_get_rules(af.prefixes@, ef[fi]) is Some && 0 <= ri
            < spec_get_rules(af.prefixes@, ef[fi])->Some_0.len() && spec_get_rules(
            af.prefixes@,
            ef[fi],
        )->Some_0[ri] == rule
}

/// One suffix-rule application step from `w` to `e` under the flags `ef`.
pub open spec fn suffix_step(
    af: AffixFile,
    ef: Seq<Seq<char>>,
    w: Seq<char>,
    e: Seq<char>,
    need_cross: bool,
) -> bool {
    exists|rule: AffixRule|
        suffix_rule_of(af, ef, rule) && (need_cross ==> rule.cross_product) && spec_can_apply(
            rule,
            w,
            AffixType::Suffix,
        ) && e == spec_apply(rule, w, AffixType::Suffix)
}

/// One prefix-rule application step from `w` to `e` under the flags `ef`.
pub open spec fn prefix_step(
    af: AffixFile,
    ef: Seq<Seq<char>>,
    w: Seq<char>,
    e: Seq<char>,
    need_cross: bool,
) -> bool {
    exists|rule: AffixRule|
        prefix_rule_of(af, ef, rule) && (need_cross ==> rule.cross_product) && spec_can_apply(
            rule,
            w,
            AffixType::Prefix,
        ) && e == spec_apply(rule, w, AffixType::Prefix)
}

/// The documented depth-two closure of `w` under the flags `ef`: `w` itself,
/// one suffix or one prefix step, or a cross-product suffix step followed by
/// one more suffix step or a cross-product prefix step.
pub open spec fn in_depth2_closure(
    af: AffixFile,
    ef: Seq<Seq<char>>,
    w: Seq<char>,
    e: Seq<char>,
) -> bool {
    ||| e == w
    ||| suffix_step(af, ef, w, e, false)
    ||| prefix_step(af, ef, w, e, false)
    ||| (exists|m: Seq<char>|
        suffix_step(af, ef, w, m, true) && (suffix_step(af, ef, m, e, false) || prefix_step(
            af,
            ef,
            m,
            e,
            true,
        )))
}

/// The suffix fold only adds single suffix steps, and only queues
/// cross-product results one level deeper.
proof fn lemma_sfx_rule_fold_sound(
    af: AffixFile,
    ef: Seq<Seq<char>>,
    rules: Seq<AffixRule>,
    w: Seq<char>,
    depth: int,
    res: Set<Seq<char>>,
    q: Seq<StateModel>,
)
    requires
        forall|k: int| 0 <= k < rules.len() ==> suffix_rule_of(af, ef, #[trigger] rules[k]),
    ensures
        (forall|x: Seq<char>|
            #[trigger] sfx_rule_fold(rules, w, depth, res, q).0.contains(x) ==> res.contains(x)
                || suffix_step(af, ef, w, x, false)),
        sfx_rule_fold(rules, w, depth, res, q).1.len() >= q.len(),
        (forall|i: int|
            0 <= i < q.len() ==> #[trigger] sfx_rule_fold(rules, w, depth, res, q).1[i] == q[i]),
        (forall|i: int|
            q.len() <= i < sfx_rule_fold(rules, w, depth, res, q).1.len() ==> {
                let st = #[trigger] sfx_rule_fold(rules, w, depth, res, q).1[i];
                st.has_suffix && st.depth == depth + 1 && suffix_step(af, ef, w, st.word, true)
            }),
        depth >= 1 ==> sfx_rule_fold(rules, w, depth, res, q).1 == q,
    decreases rules.len(),
{
    if rules.len() > 0 {
        let rule = rules[0];
        assert(suffix_rule_of(af, ef, rule));
        let t = rules.skip(1);
        assert forall|k: int| 0 <= k < t.len() implies suffix_rule_of(af, ef, #[trigger] t[k]) by {
            assert(t[k] == rules[k + 1]);
        }
        if spec_can_apply(rule, w, AffixType::Suffix) {
            let e = spec_apply(rule, w, AffixType::Suffix);
            assert(suffix_step(af, ef, w, e, false));
            if !res.contains(e) && rule.cross_product && depth < 1 {
                assert(suffix_step(af, ef, w, e, true));
                lemma_sfx_rule_fold_sound(
                    af,
                    ef,
                    t,
                    w,
                    depth,
                    res.insert(e),
                    q.push(StateModel { word: e, has_suffix: true, depth: depth + 1 }),
                );
            } else if !res.contains(e) {
                lemma_sfx_rule_fold_sound(af, ef, t, w, depth, res.insert(e), q);
            } else {
                lemma_sfx_rule_fold_sound(af, ef, t, w, depth, res, q);
            }
        } else {
            lemma_sfx_rule_fold_sound(af, ef, t, w, depth, res, q);
        }
    }
}

/// The whole suffix pass only adds single suffix steps and queues
/// cross-product results one level deeper.
proof fn lemma_sfx_flags_fold_sound(
    af: AffixFile,
    ef: Seq<Seq<char>>,
    flags: Seq<Seq<char>>,
    w: Seq<char>,
    depth: int,
    res: Set<Seq<char>>,
    q: Seq<StateModel>,
)
    requires
        forall|k: int| 0 <= k < flags.len() ==> ef.contains(#[trigger] flags[k]),
    ensures
        (forall|x: Seq<char>|
            #[trigger] sfx_flags_fold(af.suffixes@, flags, w, depth, res, q).0.contains(x)
                ==> res.contains(x) || suffix_step(af, ef, w, x, false)),
        sfx_flags_fold(af.suffixes@, flags, w, depth, res, q).1.len() >= q.len(),
        (forall|i: int|
            0 <= i < q.len() ==> #[trigger] sfx_flags_fold(
                af.suffixes@,
                flags,
                w,
                depth,
                res,
                q,
            ).1[i] == q[i]),
        (forall|i: int|
            q.len() <= i < sfx_flags_fold(af.suffixes@, flags, w, depth, res, q).1.len() ==> {
                let st = #[trigger] sfx_flags_fold(af.suffixes@, flags, w, depth, res, q).1[i];
                st.has_suffix && st.depth == depth + 1 && suffix_step(af, ef, w, st.word, true)
            }),
        depth >= 1 ==> sfx_flags_fold(af.suffixes@, flags, w, depth, res, q).1 == q,
    decreases flags.len(),
{
    if flags.len() > 0 {
        assert(ef.contains(flags[0]));
        let t = flags.skip(1);
        assert forall|k: int| 0 <= k < t.len() implies ef.contains(#[trigger] t[k]) by {
            assert(t[k] == flags[k + 1]);
        }
        match spec_get_rules(af.suffixes@, flags[0]) {
            Some(rules) => {
                let fi = choose|fi: int| 0 <= fi < ef.len() && ef[fi] == flags[0];
                assert forall|k: int|
                    0 <= k < rules.len() implies suffix_rule_of(af, ef, #[trigger] rules[k]) by {
                    assert(spec_get_rules(af.suffixes@, ef[fi]) == Some(rules));
                }
                lemma_sfx_rule_fold_sound(af, ef, rules, w, depth, res, q);
                let step = sfx_rule_fold(rules, w, depth, res, q);
                lemma_sfx_flags_fold_sound(af, ef, t, w, depth, step.0, step.1);
            },
            None => {
                lemma_sfx_flags_fold_sound(af, ef, t, w, depth, res, q);
            },
        }
    }
}

/// The prefix fold only adds single prefix steps.
proof fn lemma_pfx_rule_fold_sound(
    af: AffixFile,
    ef: Seq<Seq<char>>,
    rules: Seq<AffixRule>,
    w: Seq<char>,
    cross_only: bool,
    res: Set<Seq<char>>,
)
    requires
        forall|k: int| 0 <= k < rules.len() ==> prefix_rule_of(af, ef, #[trigger] rules[k]),
    ensures
        (forall|x: Seq<char>|
            #[trigger] pfx_rule_fold(rules, w, cross_only, res).contains(x) ==> res.contains(x)
                || prefix_step(af, ef, w, x, cross_only)),
    decreases rules.len(),
{
    if rules.len() > 0 {
        let rule = rules[0];
        assert(prefix_rule_of(af, ef, rule));
        let t = rules.skip(1);
        assert forall|k: int| 0 <= k < t.len() implies prefix_rule_of(af, ef, #[trigger] t[k]) by {
            assert(t[k] == rules[k + 1]);
        }
        if (!cross_only || rule.cross_product) && spec_can_apply(rule, w, AffixType::Prefix) {
            let e = spec_apply(rule, w, AffixType::Prefix);
            assert(prefix_step(af, ef, w, e, cross_only));
            lemma_pfx_rule_fold_sound(af, ef, t, w, cross_only, res.insert(e));
            assert(pfx_rule_fold(rules, w, cross_only, res) == pfx_rule_fold(
                t,
                w,
                cross_only,
                res.insert(e),
            ));
            assert forall|x: Seq<char>|
                #[trigger] pfx_rule_fold(rules, w, cross_only, res).contains(x)
                implies res.contains(x) || prefix_step(af, ef, w, x, cross_only) by {
                assert(pfx_rule_fold(t, w, cross_only, res.insert(e)).contains(x));
                if !res.contains(x) && !prefix_step(af, ef, w, x, cross_only) {
                    assert(res.insert(e).contains(x));
                    assert(x == e);
                }
            }
        } else {
            lemma_pfx_rule_fold_sound(af, ef, t, w, cross_only, res);
            assert(pfx_rule_fold(rules, w, cross_only, res) == pfx_rule_fold(
                t,
                w,
                cross_only,
                res,
            ));
        }
    }
}

/// The whole prefix pass only adds single prefix steps.
proof fn lemma_pfx_flags_fold_sound(
    af: AffixFile,
    ef: Seq<Seq<char>>,
    flags: Seq<Seq<char>>,
    w: Seq<char>,
    cross_only: bool,
    res: Set<Seq<char>>,
)
    requires
        forall|k: int| 0 <= k < flags.len() ==> ef.contains(#[trigger] flags[k]),
    ensures
        (forall|x: Seq<char>|
            #[trigger] pfx_flags_fold(af.prefixes@, flags, w, cross_only, res).contains(x)
                ==> res.contains(x) || prefix_step(af, ef, w, x, cross_only)),
    decreases flags.len(),
{
    if flags.len() > 0 {
        assert(ef.contains(flags[0]));
        let t = flags.skip(1);
        assert forall|k: int| 0 <= k < t.len() implies ef.contains(#[trigger] t[k]) by {
            assert(t[k] == flags[k + 1]);
        }
        match spec_get_rules(af.prefixes@, flags[0]) {
            Some(rules) => {
                let fi = choose|fi: int| 0 <= fi < ef.len() && ef[fi] == flags[0];
                assert forall|k: int|
                    0 <= k < rules.len() implies prefix_rule_of(af, ef, #[trigger] rules[k]) by {
                    assert(spec_get_rules(af.prefixes@, ef[fi]) == Some(rules));
                }
                let res1 = pfx_rule_fold(rules, w, cross_only, res);
                lemma_pfx_rule_fold_sound(af, ef, rules, w, cross_only, res);
                lemma_pfx_flags_fold_sound(af, ef, t, w, cross_only, res1);
                assert(pfx_flags_fold(af.prefixes@, flags, w, cross_only, res)
                    == pfx_flags_fold(af.prefixes@, t, w, cross_only, res1));
                assert forall|x: Seq<char>|
                    #[trigger] pfx_flags_fold(af.prefixes@, flags, w, cross_only, res).contains(
                    x,
                ) implies res.contains(x) || prefix_step(af, ef, w, x, cross_only) by {
                    assert(pfx_flags_fold(af.prefixes@, t, w, cross_only, res1).contains(x));
                    if !res.contains(x) && !prefix_step(af, ef, w, x, cross_only) {
                        assert(res1.contains(x));
                    }
                }
            },
            None => {
                lemma_pfx_flags_fold_sound(af, ef, t, w, cross_only, res);
                assert(pfx_flags_fold(af.prefixes@, flags, w, cross_only, res)
                    == pfx_flags_fold(af.prefixes@, t, w, cross_only, res));
            },
        }
    }
}

/// Every word the walk gathers lies in the depth-two closure of the start
/// word, as long as the frontier holds only the start state and
/// cross-product suffix results one level deep.
proof fn lemma_bfs_sound(
    af: AffixFile,
    ef: Seq<Seq<char>>,
    w: Seq<char>,
    q: Seq<StateModel>,
    res: Set<Seq<char>>,
    iters: int,
)
    requires
        forall|i: int|
            0 <= i < q.len() ==> (#[trigger] q[i] == StateModel {
                word: w,
                has_suffix: false,
                depth: 0,
            } || (q[i].has_suffix && q[i].depth == 1 && suffix_step(af, ef, w, q[i].word, true))),
        forall|x: Seq<char>| #[trigger] res.contains(x) ==> in_depth2_closure(af, ef, w, x),
    ensures
        forall|x: Seq<char>|
            #[trigger] bfs_spec(af, ef, q, res, iters).contains(x) ==> in_depth2_closure(
                af,
                ef,
                w,
                x,
            ),
    decreases MAX_EXPANSION_POPS + 2 - iters,
{
    if q.len() > 0 {
        let st = q[0];
        let iters2 = iters + 1;
        if !(iters2 > MAX_EXPANSION_POPS || st.depth > 2) {
            let tail = q.skip(1);
            assert forall|i: int|
                0 <= i < tail.len() implies (#[trigger] tail[i] == StateModel {
                word: w,
                has_suffix: false,
                depth: 0,
            } || (tail[i].has_suffix && tail[i].depth == 1 && suffix_step(
                af,
                ef,
                w,
                tail[i].word,
                true,
            ))) by {
                assert(tail[i] == q[i + 1]);
            }
            assert(ef.skip(0) =~= ef);
            assert forall|k: int| 0 <= k < ef.len() implies ef.contains(#[trigger] ef[k]) by {}
            let step = sfx_flags_fold(af.suffixes@, ef, st.word, st.depth, res, tail);
            let res2 = pfx_flags_fold(af.prefixes@, ef, st.word, st.has_suffix, step.0);
            lemma_sfx_flags_fold_sound(af, ef, ef, st.word, st.depth, res, tail);
            lemma_pfx_flags_fold_sound(af, ef, ef, st.word, st.has_suffix, step.0);
            if st == (StateModel { word: w, has_suffix: false, depth: 0 }) {
                assert forall|x: Seq<char>| #[trigger] res2.contains(x) implies in_depth2_closure(
                    af,
                    ef,
                    w,
                    x,
                ) by {
                    if !step.0.contains(x) {
                        assert(prefix_step(af, ef, w, x, false));
                    } else if !res.contains(x) {
                        assert(suffix_step(af, ef, w, x, false));
                    }
                }
                assert forall|i: int|
                    0 <= i < step.1.len() implies (#[trigger] step.1[i] == StateModel {
                    word: w,
                    has_suffix: false,
                    depth: 0,
                } || (step.1[i].has_suffix && step.1[i].depth == 1 && suffix_step(
                    af,
                    ef,
                    w,
                    step.1[i].word,
                    true,
                ))) by {
                    if i < tail.len() {
                        assert(step.1[i] == tail[i]);
                    }
                }
                lemma_bfs_sound(af, ef, w, step.1, res2, iters2);
                assert(bfs_spec(af, ef, q, res, iters) == bfs_spec(af, ef, step.1, res2, iters2));
                assert forall|x: Seq<char>|
                    #[trigger] bfs_spec(af, ef, q, res, iters).contains(x)
                    implies in_depth2_closure(af, ef, w, x) by {
                    assert(bfs_spec(af, ef, step.1, res2, iters2).contains(x));
                }
            } else {
                let m = st.word;
                assert(st.depth == 1 && suffix_step(af, ef, w, m, true));
                assert(step.1 == tail);
                assert forall|x: Seq<char>| #[trigger] res2.contains(x) implies in_depth2_closure(
                    af,
                    ef,
                    w,
                    x,
                ) by {
                    if !step.0.contains(x) {
                        assert(prefix_step(af, ef, m, x, true));
                        assert(suffix_step(af, ef, w, m, true) && prefix_step(af, ef, m, x, true));
                    } else if !res.contains(x) {
                        assert(suffix_step(af, ef, m, x, false));
                        assert(suffix_step(af, ef, w, m, true) && suffix_step(af, ef, m, x, false));
                    }
                }
                lemma_bfs_sound(af, ef, w, step.1, res2, iters2);
                assert(bfs_spec(af, ef, q, res, iters) == bfs_spec(af, ef, step.1, res2, iters2));
                assert forall|x: Seq<char>|
                    #[trigger] bfs_spec(af, ef, q, res, iters).contains(x)
                    implies in_depth2_closure(af, ef, w, x) by {
                    assert(bfs_spec(af, ef, step.1, res2, iters2).contains(x));
                }
            }
        } else {
            assert(bfs_spec(af, ef, q, res, iters) == res);
        }
    } else {
        assert(bfs_spec(af, ef, q, res, iters) == res);
    }
}

/// Law: every generated form lies in the depth-two closure of the input
/// word — the word itself, one suffix or prefix step, or a cross-product
/// suffix step followed by one more suffix step or a cross-product prefix
/// step, over the alias-expanded flags.
pub proof fn lemma_expand_within_depth2(af: AffixFile, w: Seq<char>, flags: Seq<Seq<char>>)
    ensures
        forall|e: Seq<char>|
            #[trigger] spec_expand_set(af, w, flags).contains(e) ==> in_depth2_closure(
                af,
                expand_flags_spec(aliases_model(af.flag_aliases@), flags),
                w,
                e,
            ),
{
    let ef = expand_flags_spec(aliases_model(af.flag_aliases@), flags);
    let q0 = seq![StateModel { word: w, has_suffix: false, depth: 0 }];
    assert forall|i: int|
        0 <= i < q0.len() implies (#[trigger] q0[i] == StateModel {
        word: w,
        has_suffix: false,
        depth: 0,
    } || (q0[i].has_suffix && q0[i].depth == 1 && suffix_step(af, ef, w, q0[i].word, true))) by {}
    assert forall|x: Seq<char>|
        #[trigger] Set::empty().insert(w).contains(x) implies in_depth2_closure(af, ef, w, x) by {
        assert(x == w);
    }
    lemma_bfs_sound(af, ef, w, q0, Set::empty().insert(w), 0);
}

/// Law: expansion is a bounded fixpoint.  Re-expanding any element of an
/// expansion with the same flags introduces no form beyond that element's
/// own documented depth-two closure.
pub proof fn lemma_expand_bounded_fixpoint(
    af: AffixFile,
    w: Seq<char>,
    flags: Seq<Seq<char>>,
    e: Seq<char>,
    e2: Seq<char>,
)
    requires
        spec_expand_set(af, w, flags).contains(e),
        spec_expand_set(af, e, flags).contains(e2),
    ensures
        in_depth2_closure(
            af,
            expand_flags_spec(aliases_model(af.flag_aliases@), flags),
            e,
            e2,
        ),
{
    lemma_expand_within_depth2(af, e, flags);
}

} // verus!
