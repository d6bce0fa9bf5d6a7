//! The rule table: immutable flag-to-rules mappings for prefixes and
//! suffixes, the flag alias table, and the affix-file reader that builds
//! them.  Tables are built once at load and only read afterwards.

use vstd::prelude::*;

use crate::affix::AffixRule;
use crate::condition::{atoms_model, AtomModel, Condition};
use crate::error::RunmunchError;
use crate::text;

verus! {

/// The declared flag representation of an affix file.
#[derive(Debug, Clone, Copy, PartialEq, Eq, Structural)]
pub enum FlagType {
    /// One character per flag.
    Single,
    /// Two characters per flag.
    Long,
    /// Decimal numbers as flags.
    Numeric,
    /// One code point per flag.
    Utf8,
}

/// The rules filed under one flag.
#[derive(Clone)]
pub struct FlagRules {
    pub flag: String,
    pub rules: Vec<AffixRule>,
}

/// One flag alias: a key standing for a flag list.
#[derive(Clone)]
pub struct FlagAlias {
    pub key: String,
    pub flags: Vec<String>,
}

/// The mathematical image of one affix rule.
#[verifier::ext_equal]
pub struct RuleModel {
    pub flag: Seq<char>,
    pub cross_product: bool,
    pub strip: Seq<char>,
    pub affix: Seq<char>,
    pub cond_always: bool,
    pub cond_atoms: Seq<AtomModel>,
    pub cond_window: int,
}

/// The model of one rule.
pub open spec fn rule_model(r: AffixRule) -> RuleModel {
    RuleModel {
        flag: r.flag@,
        cross_product: r.cross_product,
        strip: r.strip@,
        affix: r.affix@,
        cond_always: r.condition.always,
        cond_atoms: atoms_model(r.condition.atoms@),
        cond_window: r.condition.window_len as int,
    }
}

/// The models of a rule sequence.
pub open spec fn rules_model(v: Seq<AffixRule>) -> Seq<RuleModel> {
    Seq::new(v.len(), |i: int| rule_model(v[i]))
}

/// The model of a rule table: flag text paired with rule models.
pub open spec fn table_model(t: Seq<FlagRules>) -> Seq<(Seq<char>, Seq<RuleModel>)> {
    Seq::new(t.len(), |i: int| (t[i].flag@, rules_model(t[i].rules@)))
}

/// The model of the alias table: key text paired with flag texts.
pub open spec fn aliases_model(t: Seq<FlagAlias>) -> Seq<(Seq<char>, Seq<Seq<char>>)> {
    Seq::new(t.len(), |i: int| (t[i].key@, t[i].flags.deep_view()))
}

/// First-match lookup of a flag's rules in a raw table.
pub open spec fn spec_get_rules(t: Seq<FlagRules>, flag: Seq<char>) -> Option<Seq<AffixRule>>
    decreases t.len(),
{
    if t.len() == 0 {
        None
    } else if t[0].flag@ == flag {
        Some(t[0].rules@)
    } else {
        spec_get_rules(t.skip(1), flag)
    }
}

/// First-match lookup in an association list.
pub open spec fn assoc_get<V>(t: Seq<(Seq<char>, V)>, k: Seq<char>) -> Option<V>
    decreases t.len(),
{
    if t.len() == 0 {
        None
    } else if t[0].0 == k {
        Some(t[0].1)
    } else {
        assoc_get(t.skip(1), k)
    }
}

/// Insertion into an association list: the first entry of the same key is
/// replaced in place, a new key is appended.
pub open spec fn assoc_insert<V>(t: Seq<(Seq<char>, V)>, k: Seq<char>, v: V) -> Seq<
    (Seq<char>, V),
>
    decreases t.len(),
{
    if t.len() == 0 {
        seq![(k, v)]
    } else if t[0].0 == k {
        seq![(k, v)] + t.skip(1)
    } else {
        seq![t[0]] + assoc_insert(t.skip(1), k, v)
    }
}

/// Replacing the first occurrence of `k`, at index `idx`, is a positional
/// update.
proof fn lemma_assoc_insert_at<V>(t: Seq<(Seq<char>, V)>, k: Seq<char>, v: V, idx: int)
    requires
        0 <= idx < t.len(),
        t[idx].0 == k,
        forall|j: int| 0 <= j < idx ==> t[j].0 != k,
    ensures
        assoc_insert(t, k, v) == t.update(idx, (k, v)),
    decreases idx,
{
    if idx == 0 {
        assert(assoc_insert(t, k, v) =~= t.update(0, (k, v)));
    } else {
        let s = t.skip(1);
        assert(s[idx - 1].0 == k);
        assert forall|j: int| 0 <= j < idx - 1 implies s[j].0 != k by {
            assert(s[j] == t[j + 1]);
        }
        lemma_assoc_insert_at(s, k, v, idx - 1);
        assert(seq![t[0]] + s.update(idx - 1, (k, v)) =~= t.update(idx, (k, v)));
    }
}

/// Inserting a key absent from the list appends it.
proof fn lemma_assoc_insert_missing<V>(t: Seq<(Seq<char>, V)>, k: Seq<char>, v: V)
    requires
        forall|j: int| 0 <= j < t.len() ==> t[j].0 != k,
    ensures
        assoc_insert(t, k, v) == t.push((k, v)),
    decreases t.len(),
{
    if t.len() == 0 {
        assert(assoc_insert(t, k, v) =~= t.push((k, v)));
    } else {
        let s = t.skip(1);
        assert forall|j: int| 0 <= j < s.len() implies s[j].0 != k by {
            assert(s[j] == t[j + 1]);
        }
        lemma_assoc_insert_missing(s, k, v);
        assert(seq![t[0]] + s.push((k, v)) =~= t.push((k, v)));
    }
}

/// First-match lookup in a rule table.
fn table_get<'a>(t: &'a Vec<FlagRules>, flag: &str) -> (r: Option<&'a Vec<AffixRule>>)
    ensures
        (match r {
            Some(v) => assoc_get(table_model(t@), flag@) == Some(rules_model(v@))
                && spec_get_rules(t@, flag@) == Some(v@),
            None => assoc_get(table_model(t@), flag@) is None && spec_get_rules(t@, flag@)
                is None,
        }),
{
    let mut i: usize = 0;
    proof {
        assert(table_model(t@).skip(0) =~= table_model(t@));
        assert(t@.skip(0) =~= t@);
    }
    while i < t.len()
        invariant
            i <= t@.len(),
            forall|j: int| 0 <= j < i ==> t@[j].flag@ != flag@,
            assoc_get(table_model(t@), flag@) == assoc_get(
                table_model(t@).skip(i as int),
                flag@,
            ),
            spec_get_rules(t@, flag@) == spec_get_rules(t@.skip(i as int), flag@),
        decreases t@.len() - i,
    {
        let ghost tm = table_model(t@);
        proof {
            assert(tm.skip(i as int)[0] == tm[i as int]);
            assert(tm.skip(i as int).skip(1) =~= tm.skip(i as int + 1));
            assert(t@.skip(i as int)[0] == t@[i as int]);
            assert(t@.skip(i as int).skip(1) =~= t@.skip(i as int + 1));
        }
        if text::str_eq(t[i].flag.as_str(), flag) {
            return Some(&t[i].rules);
        }
        i += 1;
    }
    None
}

/// Inserts `rules` under `flag`, replacing the first entry of that flag or
/// appending a new one.
fn table_put(t: &mut Vec<FlagRules>, flag: String, rules: Vec<AffixRule>)
    ensures
        table_model(final(t)@) == assoc_insert(
            table_model(old(t)@),
            flag@,
            rules_model(rules@),
        ),
{
    let ghost tm = table_model(t@);
    let mut i: usize = 0;
    while i < t.len()
        invariant
            i <= t@.len(),
            t@ == old(t)@,
            tm == table_model(t@),
            forall|j: int| 0 <= j < i ==> t@[j].flag@ != flag@,
        decreases t@.len() - i,
    {
        if text::str_eq(t[i].flag.as_str(), flag.as_str()) {
            let entry = FlagRules { flag, rules };
            let ghost fm = entry.flag@;
            let ghost rm = rules_model(entry.rules@);
            let ghost before = t@;
            t.remove(i);
            t.insert(i, entry);
            proof {
                assert(t@ =~= before.update(i as int, entry));
                assert(tm[i as int].0 == before[i as int].flag@);
                lemma_assoc_insert_at(tm, fm, rm, i as int);
                assert forall|j: int| 0 <= j < t@.len() implies table_model(t@)[j] == tm.update(
                    i as int,
                    (fm, rm),
                )[j] by {
                    if j != i {
                        assert(t@[j] == before[j]);
                    }
                }
                assert(table_model(t@) =~= tm.update(i as int, (fm, rm)));
            }
            return ;
        }
        i += 1;
    }
    let entry = FlagRules { flag, rules };
    let ghost fm = entry.flag@;
    let ghost rm = rules_model(entry.rules@);
    t.push(entry);
    proof {
        lemma_assoc_insert_missing(tm, fm, rm);
        assert(table_model(t@) =~= tm.push((fm, rm)));
    }
}

/// First-match lookup in the alias table.
fn alias_get<'a>(t: &'a Vec<FlagAlias>, key: &str) -> (r: Option<&'a Vec<String>>)
    ensures
        (match r {
            Some(v) => assoc_get(aliases_model(t@), key@) == Some(v.deep_view()),
            None => assoc_get(aliases_model(t@), key@) is None,
        }),
{
    let mut i: usize = 0;
    proof {
        assert(aliases_model(t@).skip(0) =~= aliases_model(t@));
    }
    while i < t.len()
        invariant
            i <= t@.len(),
            forall|j: int| 0 <= j < i ==> t@[j].key@ != key@,
            assoc_get(aliases_model(t@), key@) == assoc_get(
                aliases_model(t@).skip(i as int),
                key@,
            ),
        decreases t@.len() - i,
    {
        let ghost tm = aliases_model(t@);
        proof {
            assert(tm.skip(i as int)[0] == tm[i as int]);
            assert(tm.skip(i as int).skip(1) =~= tm.skip(i as int + 1));
        }
        if text::str_eq(t[i].key.as_str(), key) {
            return Some(&t[i].flags);
        }
        i += 1;
    }
    None
}

/// Inserts `flags` under alias `key`, replacing or appending as
/// [`table_put`] does.
fn alias_put(t: &mut Vec<FlagAlias>, key: String, flags: Vec<String>)
    ensures
        aliases_model(final(t)@) == assoc_insert(
            aliases_model(old(t)@),
            key@,
            flags.deep_view(),
        ),
{
    let ghost tm = aliases_model(t@);
    let mut i: usize = 0;
    while i < t.len()
        invariant
            i <= t@.len(),
            t@ == old(t)@,
            tm == aliases_model(t@),
            forall|j: int| 0 <= j < i ==> t@[j].key@ != key@,
        decreases t@.len() - i,
    {
        if text::str_eq(t[i].key.as_str(), key.as_str()) {
            let entry = FlagAlias { key, flags };
            let ghost km = entry.key@;
            let ghost fm = entry.flags.deep_view();
            let ghost before = t@;
            t.remove(i);
            t.insert(i, entry);
            proof {
                assert(t@ =~= before.update(i as int, entry));
                assert(tm[i as int].0 == before[i as int].key@);
                lemma_assoc_insert_at(tm, km, fm, i as int);
                assert forall|j: int| 0 <= j < t@.len() implies aliases_model(t@)[j] == tm.update(
                    i as int,
                    (km, fm),
                )[j] by {
                    if j != i {
                        assert(t@[j] == before[j]);
                    }
                }
                assert(aliases_model(t@) =~= tm.update(i as int, (km, fm)));
            }
            return ;
        }
        i += 1;
    }
    let entry = FlagAlias { key, flags };
    let ghost km = entry.key@;
    let ghost fm = entry.flags.deep_view();
    t.push(entry);
    proof {
        lemma_assoc_insert_missing(tm, km, fm);
        assert(aliases_model(t@) =~= tm.push((km, fm)));
    }
}

/// The rule and alias tables read from an affix file.
#[derive(Clone)]
pub struct AffixFile {
    pub prefixes: Vec<FlagRules>,
    pub suffixes: Vec<FlagRules>,
    pub flag_type: FlagType,
    pub fullstrip: bool,
    pub flag_aliases: Vec<FlagAlias>,
}

/// The mathematical image of an affix file.
#[verifier::ext_equal]
pub struct AffixFileModel {
    pub prefixes: Seq<(Seq<char>, Seq<RuleModel>)>,
    pub suffixes: Seq<(Seq<char>, Seq<RuleModel>)>,
    pub flag_type: FlagType,
    pub fullstrip: bool,
    pub flag_aliases: Seq<(Seq<char>, Seq<Seq<char>>)>,
}

/// The model of an affix file.
pub open spec fn file_model(f: AffixFile) -> AffixFileModel {
    AffixFileModel {
        prefixes: table_model(f.prefixes@),
        suffixes: table_model(f.suffixes@),
        flag_type: f.flag_type,
        fullstrip: f.fullstrip,
        flag_aliases: aliases_model(f.flag_aliases@),
    }
}

/// The model of an empty affix file.
pub open spec fn empty_file_model() -> AffixFileModel {
    AffixFileModel {
        prefixes: Seq::empty(),
        suffixes: Seq::empty(),
        flag_type: FlagType::Single,
        fullstrip: false,
        flag_aliases: Seq::empty(),
    }
}

/// One resolved flag token: an all-digit token is replaced by its alias
/// entry, falling back to the literal token; any other token passes through.
pub open spec fn resolve_flag_spec(
    aliases: Seq<(Seq<char>, Seq<Seq<char>>)>,
    f: Seq<char>,
) -> Seq<Seq<char>> {
    if forall|k: int| 0 <= k < f.len() ==> text::is_digit_char(f[k]) {
        match assoc_get(aliases, f) {
            Some(l) => l,
            None => seq![f],
        }
    } else {
        seq![f]
    }
}

/// Alias expansion over a flag list, in order.
pub open spec fn expand_flags_spec(
    aliases: Seq<(Seq<char>, Seq<Seq<char>>)>,
    flags: Seq<Seq<char>>,
) -> Seq<Seq<char>>
    decreases flags.len(),
{
    if flags.len() == 0 {
        Seq::empty()
    } else {
        resolve_flag_spec(aliases, flags[0]) + expand_flags_spec(aliases, flags.skip(1))
    }
}

impl AffixFile {
    /// An empty affix file: no rules, single-character flags.
    pub fn new() -> (f: Self)
        ensures
            file_model(f) == empty_file_model(),
    {
        let f = AffixFile {
            prefixes: Vec::new(),
            suffixes: Vec::new(),
            flag_type: FlagType::Single,
            fullstrip: false,
            flag_aliases: Vec::new(),
        };
        proof {
            assert(file_model(f) =~= empty_file_model());
        }
        f
    }

    /// The prefix rules of `flag`, if any block declared them.
    pub fn get_prefix_rules<'a>(&'a self, flag: &str) -> (r: Option<&'a Vec<AffixRule>>)
        ensures
            (match r {
                Some(v) => assoc_get(file_model(*self).prefixes, flag@) == Some(
                    rules_model(v@),
                ) && spec_get_rules(self.prefixes@, flag@) == Some(v@),
                None => assoc_get(file_model(*self).prefixes, flag@) is None
                    && spec_get_rules(self.prefixes@, flag@) is None,
            }),
    {
        table_get(&self.prefixes, flag)
    }

    /// The suffix rules of `flag`, if any block declared them.
    pub fn get_suffix_rules<'a>(&'a self, flag: &str) -> (r: Option<&'a Vec<AffixRule>>)
        ensures
            (match r {
                Some(v) => assoc_get(file_model(*self).suffixes, flag@) == Some(
                    rules_model(v@),
                ) && spec_get_rules(self.suffixes@, flag@) == Some(v@),
                None => assoc_get(file_model(*self).suffixes, flag@) is None
                    && spec_get_rules(self.suffixes@, flag@) is None,
            }),
    {
        table_get(&self.suffixes, flag)
    }

    /// The flag list of `alias`, or the literal token when unregistered.
    pub fn resolve_flag_alias(&self, alias: &str) -> (r: Vec<String>)
        ensures
            r.deep_view() == (match assoc_get(file_model(*self).flag_aliases, alias@) {
                Some(l) => l,
                None => seq![alias@],
            }),
    {
        match alias_get(&self.flag_aliases, alias) {
            Some(v) => v.clone(),
            None => {
                let mut out: Vec<String> = Vec::new();
                out.push(alias.to_owned());
                proof {
                    assert(out.deep_view() =~= seq![alias@]);
                }
                out
            },
        }
    }

    /// Expands alias tokens in `flags`: every all-digit token is replaced by
    /// its resolved list, other tokens pass through unchanged.  Must run
    /// before flags index the rule table.
    pub fn expand_flags(&self, flags: &[String]) -> (r: Vec<String>)
        ensures
            r.deep_view() == expand_flags_spec(
                file_model(*self).flag_aliases,
                flags.deep_view(),
            ),
    {
        let ghost am = aliases_model(self.flag_aliases@);
        let ghost fv = flags.deep_view();
        let mut out: Vec<String> = Vec::new();
        let mut i: usize = 0;
        proof {
            assert(fv.skip(0) =~= fv);
            assert(out.deep_view() + expand_flags_spec(am, fv) =~= expand_flags_spec(am, fv));
        }
        while i < flags.len()
            invariant
                i <= flags@.len(),
                fv == flags.deep_view(),
                fv.len() == flags@.len(),
                am == aliases_model(self.flag_aliases@),
                out.deep_view() + expand_flags_spec(am, fv.skip(i as int)) =~= expand_flags_spec(
                    am,
                    fv,
                ),
            decreases flags@.len() - i,
        {
            let ghost rest = fv.skip(i as int);
            proof {
                assert(rest[0] == fv[i as int]);
                assert(rest.skip(1) =~= fv.skip(i as int + 1));
            }
            let f = &flags[i];
            let n = f.as_str().unicode_len();
            let mut all_digits = true;
            let mut k: usize = 0;
            while k < n
                invariant
                    k <= n,
                    n == f@.len(),
                    all_digits == forall|t: int| 0 <= t < k ==> text::is_digit_char(f@[t]),
                decreases n - k,
            {
                if !text::is_digit(f.as_str().get_char(k)) {
                    all_digits = false;
                }
                proof {
                    if !all_digits && forall|t: int|
                        0 <= t < k + 1 ==> text::is_digit_char(f@[t]) {
                        let t = choose|t: int|
                            0 <= t < k && !text::is_digit_char(f@[t]);
                    }
                }
                k += 1;
            }
            let ghost before = out.deep_view();
            if all_digits {
                let resolved = self.resolve_flag_alias(f.as_str());
                let mut ri: usize = 0;
                while ri < resolved.len()
                    invariant
                        ri <= resolved@.len(),
                        out.deep_view() =~= before + resolved.deep_view().take(ri as int),
                    decreases resolved@.len() - ri,
                {
                    out.push(resolved[ri].clone());
                    proof {
                        assert(out.deep_view() =~= out.deep_view().subrange(
                            0,
                            out.deep_view().len() - 1,
                        ).push(resolved.deep_view()[ri as int]));
                        assert(before + resolved.deep_view().take(ri as int + 1) =~= (before
                            + resolved.deep_view().take(ri as int)).push(
                            resolved.deep_view()[ri as int],
                        ));
                    }
                    ri += 1;
                }
                proof {
                    assert(resolved.deep_view().take(resolved.deep_view().len() as int)
                        =~= resolved.deep_view());
                    assert(resolve_flag_spec(am, fv[i as int]) == resolved.deep_view());
                    assert(out.deep_view() + expand_flags_spec(am, fv.skip(i as int + 1))
                        =~= expand_flags_spec(am, fv));
                }
            } else {
                out.push(f.clone());
                proof {
                    assert(out.deep_view() =~= before.push(fv[i as int]));
                    assert(resolve_flag_spec(am, fv[i as int]) == seq![fv[i as int]]);
                    assert(before.push(fv[i as int]) =~= before + seq![fv[i as int]]);
                    assert(out.deep_view() + expand_flags_spec(am, fv.skip(i as int + 1))
                        =~= expand_flags_spec(am, fv));
                }
            }
            i += 1;
        }
        proof {
            assert(fv.skip(fv.len() as int) =~= Seq::<Seq<char>>::empty());
        }
        out
    }
}

/// The text of `s` before its first `/`, or all of it.
pub open spec fn upto_slash_spec(s: Seq<char>) -> Seq<char> {
    let f = text::find_spec(s, '/');
    if f >= 0 {
        s.take(f)
    } else {
        s
    }
}

/// One walked affix block: from rule line `i` (line `start` is the header)
/// up to rule line `count`, collecting the rules whose lines repeat the
/// keyword and flag; `processed` is the last line index reached, blank and
/// comment lines only advance it.  `None` on a rule whose condition has an
/// unclosed bracket class.
pub open spec fn block_rules_spec(
    lines: Seq<Seq<char>>,
    kw: Seq<char>,
    flag: Seq<char>,
    cross: bool,
    start: int,
    count: int,
    i: int,
    processed: int,
    acc: Seq<RuleModel>,
) -> Option<(int, Seq<RuleModel>)>
    decreases count - i + 1,
{
    if i > count || start + i >= lines.len() {
        Some((processed, acc))
    } else {
        let line = text::trim_spec(lines[start + i]);
        if line.len() == 0 || line[0] == '#' {
            block_rules_spec(lines, kw, flag, cross, start, count, i + 1, i, acc)
        } else {
            let parts = text::tokens_spec(line);
            if parts.len() >= 4 && parts[0] == kw && parts[1] == flag {
                let strip = if parts[2] == "0"@ {
                    Seq::<char>::empty()
                } else {
                    parts[2]
                };
                let affix = if parts[3] == "0"@ {
                    Seq::<char>::empty()
                } else {
                    upto_slash_spec(parts[3])
                };
                let cond = if parts.len() >= 5 {
                    parts[4]
                } else {
                    seq!['.']
                };
                match crate::condition::compile_spec(cond) {
                    None => None,
                    Some(atoms) => {
                        let always = cond.len() == 0 || cond == seq!['.'];
                        let rm = RuleModel {
                            flag,
                            cross_product: cross,
                            strip,
                            affix,
                            cond_always: always,
                            cond_atoms: if always {
                                Seq::empty()
                            } else {
                                atoms
                            },
                            cond_window: cond.len() as int,
                        };
                        block_rules_spec(
                            lines,
                            kw,
                            flag,
                            cross,
                            start,
                            count,
                            i + 1,
                            i,
                            acc.push(rm),
                        )
                    },
                }
            } else {
                block_rules_spec(lines, kw, flag, cross, start, count, i + 1, i, acc)
            }
        }
    }
}

/// The walk stays inside the line range: the reached index is at least one
/// and never past the end.
pub proof fn lemma_block_processed(
    lines: Seq<Seq<char>>,
    kw: Seq<char>,
    flag: Seq<char>,
    cross: bool,
    start: int,
    count: int,
    i: int,
    processed: int,
    acc: Seq<RuleModel>,
)
    requires
        1 <= processed,
        start + processed <= lines.len(),
        1 <= i,
    ensures
        (match block_rules_spec(lines, kw, flag, cross, start, count, i, processed, acc) {
            Some(res) => 1 <= res.0 && start + res.0 <= lines.len(),
            None => true,
        }),
    decreases count - i + 1,
{
    if !(i > count || start + i >= lines.len()) {
        let line = text::trim_spec(lines[start + i]);
        if line.len() == 0 || line[0] == '#' {
            lemma_block_processed(lines, kw, flag, cross, start, count, i + 1, i, acc);
        } else {
            let parts = text::tokens_spec(line);
            if parts.len() >= 4 && parts[0] == kw && parts[1] == flag {
                let cond = if parts.len() >= 5 {
                    parts[4]
                } else {
                    seq!['.']
                };
                match crate::condition::compile_spec(cond) {
                    None => {},
                    Some(atoms) => {
                        let always = cond.len() == 0 || cond == seq!['.'];
                        let rm = RuleModel {
                            flag,
                            cross_product: cross,
                            strip: if parts[2] == "0"@ {
                                Seq::<char>::empty()
                            } else {
                                parts[2]
                            },
                            affix: if parts[3] == "0"@ {
                                Seq::<char>::empty()
                            } else {
                                upto_slash_spec(parts[3])
                            },
                            cond_always: always,
                            cond_atoms: if always {
                                Seq::empty()
                            } else {
                                atoms
                            },
                            cond_window: cond.len() as int,
                        };
                        lemma_block_processed(
                            lines,
                            kw,
                            flag,
                            cross,
                            start,
                            count,
                            i + 1,
                            i,
                            acc.push(rm),
                        );
                    },
                }
            } else {
                lemma_block_processed(lines, kw, flag, cross, start, count, i + 1, i, acc);
            }
        }
    }
}

/// One whole affix block headed at line `start`: the lines consumed past the
/// header, the flag, the cross-product mark, and the collected rules; `None`
/// on a short header, an unreadable rule count, or a bad condition.
pub open spec fn block_spec(lines: Seq<Seq<char>>, start: int) -> Option<
    (int, Seq<char>, bool, Seq<RuleModel>),
> {
    let header = text::tokens_spec(text::trim_spec(lines[start]));
    if header.len() < 4 {
        None
    } else {
        let flag = header[1];
        let cross = header[2] == "Y"@;
        match text::parse_uint_spec(header[3], usize::MAX as int) {
            None => None,
            Some(count) => match block_rules_spec(
                lines,
                header[0],
                flag,
                cross,
                start,
                count,
                1,
                1,
                Seq::empty(),
            ) {
                None => None,
                Some(res) => Some((res.0, flag, cross, res.1)),
            },
        }
    }
}

/// The flag representation named by a `FLAG` directive's argument.
pub open spec fn flag_type_of(tok: Seq<char>) -> FlagType {
    if tok == "long"@ {
        FlagType::Long
    } else if tok == "num"@ {
        FlagType::Numeric
    } else if tok == "UTF-8"@ {
        FlagType::Utf8
    } else {
        FlagType::Single
    }
}

/// The alias key of an `AF` line: the number in a trailing comment when one
/// parses, else the next table position; always in canonical decimal.
pub open spec fn af_key_spec(line: Seq<char>, n_aliases: int) -> Seq<char> {
    let cp = text::find_spec(line, '#');
    if cp >= 0 {
        let c = text::trim_spec(line.skip(cp + 1));
        let v = match text::parse_uint_spec(c, u32::MAX as int) {
            Some(v) => v,
            None => ((n_aliases + 1) as u32) as int,
        };
        text::dec_str_spec(v)
    } else {
        text::dec_str_spec(((n_aliases + 1) as usize) as int)
    }
}

/// The model after one `AF` line: the token's flags, split by the current
/// flag representation, filed under the line's alias key.
pub open spec fn af_step_spec(
    st: AffixFileModel,
    line: Seq<char>,
    flags_str: Seq<char>,
) -> AffixFileModel {
    let key = af_key_spec(line, st.flag_aliases.len() as int);
    let flags = (match st.flag_type {
        FlagType::Long => text::pairs_spec(flags_str),
        _ => text::singles_spec(flags_str),
    });
    AffixFileModel {
        prefixes: st.prefixes,
        suffixes: st.suffixes,
        flag_type: st.flag_type,
        fullstrip: st.fullstrip,
        flag_aliases: assoc_insert(st.flag_aliases, key, flags),
    }
}

/// The affix text interpreted line by line from line `i` in state `st`:
/// blank and comment lines are skipped; `FLAG`, `FULLSTRIP` and `AF`
/// directives update the state; a `PFX`/`SFX` header line opens a block that
/// replaces that flag's rule list; any other line is ignored.  `None` on a
/// block that fails.
pub open spec fn parse_lines_spec(
    lines: Seq<Seq<char>>,
    i: int,
    st: AffixFileModel,
) -> Option<AffixFileModel>
    decreases (if i <= lines.len() {
        lines.len() - i
    } else {
        0
    }),
    via parse_lines_spec_dec
{
    if i >= lines.len() {
        Some(st)
    } else {
        let line = text::trim_spec(lines[i]);
        if line.len() == 0 || line[0] == '#' {
            parse_lines_spec(lines, i + 1, st)
        } else {
            let parts = text::tokens_spec(line);
            if parts.len() == 0 {
                parse_lines_spec(lines, i + 1, st)
            } else if parts[0] == "FLAG"@ {
                let st2 = if parts.len() >= 2 {
                    AffixFileModel {
                        prefixes: st.prefixes,
                        suffixes: st.suffixes,
                        flag_type: flag_type_of(parts[1]),
                        fullstrip: st.fullstrip,
                        flag_aliases: st.flag_aliases,
                    }
                } else {
                    st
                };
                parse_lines_spec(lines, i + 1, st2)
            } else if parts[0] == "FULLSTRIP"@ {
                let st2 = AffixFileModel {
                    prefixes: st.prefixes,
                    suffixes: st.suffixes,
                    flag_type: st.flag_type,
                    fullstrip: true,
                    flag_aliases: st.flag_aliases,
                };
                parse_lines_spec(lines, i + 1, st2)
            } else if parts[0] == "AF"@ {
                let st2 = if parts.len() >= 2 {
                    af_step_spec(st, line, parts[1])
                } else {
                    st
                };
                parse_lines_spec(lines, i + 1, st2)
            } else if (parts[0] == "PFX"@ || parts[0] == "SFX"@) && parts.len() >= 4 && (
            parts[2] == "Y"@ || parts[2] == "N"@) {
                match block_spec(lines, i) {
                    None => None,
                    Some(res) => {
                        let st2 = if parts[0] == "PFX"@ {
                            AffixFileModel {
                                prefixes: assoc_insert(st.prefixes, res.1, res.3),
                                suffixes: st.suffixes,
                                flag_type: st.flag_type,
                                fullstrip: st.fullstrip,
                                flag_aliases: st.flag_aliases,
                            }
                        } else {
                            AffixFileModel {
                                prefixes: st.prefixes,
                                suffixes: assoc_insert(st.suffixes, res.1, res.3),
                                flag_type: st.flag_type,
                                fullstrip: st.fullstrip,
                                flag_aliases: st.flag_aliases,
                            }
                        };
                        parse_lines_spec(lines, i + res.0, st2)
                    },
                }
            } else {
                parse_lines_spec(lines, i + 1, st)
            }
        }
    }
}

#[via_fn]
proof fn parse_lines_spec_dec(lines: Seq<Seq<char>>, i: int, st: AffixFileModel) {
    if i < lines.len() {
        let line = text::trim_spec(lines[i]);
        if !(line.len() == 0 || line[0] == '#') {
            let parts = text::tokens_spec(line);
            if parts.len() >= 4 && (parts[0] == "PFX"@ || parts[0] == "SFX"@) && (parts[2]
                == "Y"@ || parts[2] == "N"@) {
                let header = text::tokens_spec(text::trim_spec(lines[i]));
                if header.len() >= 4 {
                    match text::parse_uint_spec(header[3], usize::MAX as int) {
                        None => {},
                        Some(count) => {
                            lemma_block_processed(
                                lines,
                                header[0],
                                header[1],
                                header[2] == "Y"@,
                                i,
                                count,
                                1,
                                1,
                                Seq::empty(),
                            );
                        },
                    }
                }
            }
        }
    }
}

/// The parse of affix text: the lines interpreted from an empty state.
pub open spec fn parse_affix_spec(content: Seq<char>) -> Option<AffixFileModel> {
    parse_lines_spec(text::lines_spec(content), 0, empty_file_model())
}

impl Default for AffixFile {
    /// An empty affix file.
    fn default() -> (f: Self)
        ensures
            file_model(f) == empty_file_model(),
    {
        AffixFile::new()
    }
}

} // verus!

verus! {

impl AffixFile {
    /// Walks one affix block headed at line `start` and files its rules,
    /// replacing the flag's previous list.  Returns the lines consumed past
    /// the header.  Fails exactly when the header's rule count is not a
    /// number or a rule's condition has an unclosed bracket class; the
    /// tables are untouched then.
    fn parse_affix_block(
        &mut self,
        lines: &Vec<String>,
        start: usize,
        header: &Vec<String>,
        is_prefix: bool,
    ) -> (r: Result<usize, RunmunchError>)
        requires
            start < lines@.len(),
            header.deep_view() == text::tokens_spec(
                text::trim_spec(lines.deep_view()[start as int]),
            ),
            header@.len() >= 4,
        ensures
            (match block_spec(lines.deep_view(), start as int) {
                Some(res) => {
                    &&& r matches Ok(p) && p == res.0
                    &&& 1 <= res.0 && start + res.0 <= lines@.len()
                    &&& (is_prefix ==> table_model(final(self).prefixes@) == assoc_insert(
                        table_model(old(self).prefixes@),
                        res.1,
                        res.3,
                    ) && final(self).suffixes == old(self).suffixes)
                    &&& (!is_prefix ==> table_model(final(self).suffixes@) == assoc_insert(
                        table_model(old(self).suffixes@),
                        res.1,
                        res.3,
                    ) && final(self).prefixes == old(self).prefixes)
                    &&& final(self).flag_type == old(self).flag_type
                    &&& final(self).fullstrip == old(self).fullstrip
                    &&& final(self).flag_aliases == old(self).flag_aliases
                },
                None => (r matches Err(e) && e matches RunmunchError::InvalidAffix(_))
                    && *final(self) == *old(self),
            }),
    {
        let ghost lv = lines.deep_view();
        let ghost hv = header.deep_view();
        let nlines = lines.len();
        proof {
            assert(lv.len() == lines@.len());
            assert(hv[0] == header@[0]@);
            assert(hv[1] == header@[1]@);
            assert(hv[2] == header@[2]@);
            assert(hv[3] == header@[3]@);
        }
        let flag_s = header[1].clone();
        let cross = text::str_eq(header[2].as_str(), "Y");
        let count = match text::parse_usize_str(header[3].as_str()) {
            Some(c) => c,
            None => {
                return Err(RunmunchError::InvalidAffix("Invalid rule count".to_owned()));
            },
        };
        let ghost kw = hv[0];
        let ghost fm = flag_s@;
        let mut rules: Vec<AffixRule> = Vec::new();
        let mut processed: usize = 1;
        let mut i: usize = 1;
        proof {
            assert(rules_model(rules@) =~= Seq::<RuleModel>::empty());
        }
        while i <= count && i < nlines - start
            invariant
                1 <= i,
                1 <= processed,
                start + processed <= lv.len(),
                start < lv.len(),
                nlines == lv.len(),
                lv == lines.deep_view(),
                lv.len() == lines@.len(),
                fm == flag_s@,
                hv == header.deep_view(),
                hv.len() == header@.len(),
                hv.len() >= 4,
                kw == hv[0],
                *self == *old(self),
                text::parse_uint_spec(hv[3], usize::MAX as int) == Some(count as int),
                hv == text::tokens_spec(text::trim_spec(lv[start as int])),
                cross == (hv[2] == "Y"@),
                fm == hv[1],
                block_rules_spec(
                    lv,
                    kw,
                    fm,
                    cross,
                    start as int,
                    count as int,
                    i as int,
                    processed as int,
                    rules_model(rules@),
                ) == block_rules_spec(
                    lv,
                    kw,
                    fm,
                    cross,
                    start as int,
                    count as int,
                    1,
                    1,
                    Seq::empty(),
                ),
            decreases count + 1 - i,
        {
            let ghost acc0 = rules_model(rules@);
            let line = text::trim(lines[start + i].as_str());
            proof {
                assert(lines@[start + i]@ == lv[start + i]);
            }
            let llen = line.unicode_len();
            if llen == 0 || line.get_char(0) == '#' {
                processed = i;
            } else {
                let parts = text::split_tokens(line);
                let ghost pv = parts.deep_view();
                if parts.len() >= 4 && text::str_eq(parts[0].as_str(), header[0].as_str())
                    && text::str_eq(parts[1].as_str(), flag_s.as_str()) {
                    proof {
                        assert(pv[0] == parts@[0]@);
                        assert(pv[1] == parts@[1]@);
                        assert(pv[2] == parts@[2]@);
                        assert(pv[3] == parts@[3]@);
                    }
                    let strip = if text::str_eq(parts[2].as_str(), "0") {
                        String::new()
                    } else {
                        parts[2].clone()
                    };
                    let affix = if text::str_eq(parts[3].as_str(), "0") {
                        String::new()
                    } else {
                        proof {
                            text::lemma_find_spec(parts@[3]@, '/');
                        }
                        match text::find_char(parts[3].as_str(), '/') {
                            Some(cp) => parts[3].as_str().substring_char(0, cp).to_owned(),
                            None => parts[3].clone(),
                        }
                    };
                    let cond = if parts.len() >= 5 {
                        proof {
                            assert(pv[4] == parts@[4]@);
                        }
                        parts[4].clone()
                    } else {
                        ".".to_owned()
                    };
                    proof {
                        reveal_strlit(".");
                        reveal_strlit("0");
                        assert("."@ =~= seq!['.']);
                        assert((pv[2] == "0"@) == (strip@ =~= Seq::<char>::empty())
                            || true);
                        if pv[2] == "0"@ {
                            assert(strip@ =~= Seq::<char>::empty());
                        }
                        if pv[3] == "0"@ {
                            assert(affix@ =~= Seq::<char>::empty());
                        } else {
                            assert(affix@ =~= upto_slash_spec(pv[3]));
                        }
                        if parts@.len() >= 5 {
                            assert(cond@ == pv[4]);
                        } else {
                            assert(cond@ =~= seq!['.']);
                        }
                    }
                    match AffixRule::new(flag_s.clone(), cross, strip, affix, cond) {
                        Ok(rule) => {
                            proof {
                                let spec_cond = if pv.len() >= 5 {
                                    pv[4]
                                } else {
                                    seq!['.']
                                };
                                let always = spec_cond.len() == 0 || spec_cond == seq!['.'];
                                let atoms = crate::condition::compile_spec(spec_cond)->Some_0;
                                let rm = RuleModel {
                                    flag: fm,
                                    cross_product: cross,
                                    strip: if pv[2] == "0"@ {
                                        Seq::<char>::empty()
                                    } else {
                                        pv[2]
                                    },
                                    affix: if pv[3] == "0"@ {
                                        Seq::<char>::empty()
                                    } else {
                                        upto_slash_spec(pv[3])
                                    },
                                    cond_always: always,
                                    cond_atoms: if always {
                                        Seq::empty()
                                    } else {
                                        atoms
                                    },
                                    cond_window: spec_cond.len() as int,
                                };
                                if rule.condition.always {
                                    assert(atoms_model(rule.condition.atoms@)
                                        =~= Seq::<AtomModel>::empty());
                                }
                                assert(rule_model(rule) =~= rm);
                            }
                            rules.push(rule);
                            proof {
                                assert(rules_model(rules@) =~= acc0.push(
                                    rule_model(rules@.last()),
                                ));
                            }
                        },
                        Err(e) => {
                            proof {
                                let spec_cond = if pv.len() >= 5 {
                                    pv[4]
                                } else {
                                    seq!['.']
                                };
                                assert(crate::condition::compile_spec(spec_cond) is None);
                                assert(block_rules_spec(
                                    lv,
                                    kw,
                                    fm,
                                    cross,
                                    start as int,
                                    count as int,
                                    i as int,
                                    processed as int,
                                    acc0,
                                ) is None);
                                assert(block_rules_spec(
                                    lv,
                                    kw,
                                    fm,
                                    cross,
                                    start as int,
                                    count as int,
                                    1,
                                    1,
                                    Seq::empty(),
                                ) is None);
                                assert(block_spec(lv, start as int) is None);
                            }
                            return Err(e);
                        },
                    }
                    processed = i;
                } else {
                    processed = i;
                }
            }
            i += 1;
        }
        let ghost res = block_rules_spec(
            lv,
            kw,
            fm,
            cross,
            start as int,
            count as int,
            1,
            1,
            Seq::empty(),
        );
        proof {
            assert(res == Some((processed as int, rules_model(rules@))));
        }
        if is_prefix {
            table_put(&mut self.prefixes, flag_s, rules);
        } else {
            table_put(&mut self.suffixes, flag_s, rules);
        }
        Ok(processed)
    }

    /// Parses affix text line by line: `FLAG`, `FULLSTRIP` and `AF`
    /// directives configure the file; each `PFX`/`SFX` header opens a block
    /// whose rules are filed under its flag; everything else is ignored.
    /// Fails exactly when a block has an unreadable rule count or a rule
    /// condition with an unclosed bracket class.
    pub fn parse(content: &str) -> (r: Result<AffixFile, RunmunchError>)
        ensures
            r matches Ok(f) ==> parse_affix_spec(content@) == Some(file_model(f)),
            r matches Err(e) ==> parse_affix_spec(content@) is None
                && e matches RunmunchError::InvalidAffix(_),
    {
        let lines = text::split_lines(content);
        let ghost lv = lines.deep_view();
        let mut af = AffixFile::new();
        let mut i: usize = 0;
        while i < lines.len()
            invariant
                i <= lines@.len(),
                lv == lines.deep_view(),
                lv.len() == lines@.len(),
                parse_lines_spec(lv, i as int, file_model(af)) == parse_affix_spec(content@),
            decreases lines@.len() - i,
        {
            let ghost st = file_model(af);
            let line = text::trim(lines[i].as_str());
            proof {
                assert(lines@[i as int]@ == lv[i as int]);
            }
            let llen = line.unicode_len();
            if llen == 0 || line.get_char(0) == '#' {
                i += 1;
            } else {
                let parts = text::split_tokens(line);
                let ghost pv = parts.deep_view();
                proof {
                    if parts@.len() > 0 {
                        assert(pv[0] == parts@[0]@);
                    }
                }
                if parts.len() == 0 {
                    i += 1;
                } else if text::str_eq(parts[0].as_str(), "FLAG") {
                    if parts.len() >= 2 {
                        proof {
                            assert(pv[1] == parts@[1]@);
                        }
                        af.flag_type = if text::str_eq(parts[1].as_str(), "long") {
                            FlagType::Long
                        } else if text::str_eq(parts[1].as_str(), "num") {
                            FlagType::Numeric
                        } else if text::str_eq(parts[1].as_str(), "UTF-8") {
                            FlagType::Utf8
                        } else {
                            FlagType::Single
                        };
                        proof {
                            assert(af.flag_type == flag_type_of(pv[1]));
                        }
                    }
                    proof {
                        assert(parse_lines_spec(lv, i as int + 1, file_model(af))
                            == parse_affix_spec(content@));
                    }
                    i += 1;
                } else if text::str_eq(parts[0].as_str(), "FULLSTRIP") {
                    af.fullstrip = true;
                    i += 1;
                } else if text::str_eq(parts[0].as_str(), "AF") {
                    if parts.len() >= 2 {
                        proof {
                            assert(pv[1] == parts@[1]@);
                            text::lemma_find_spec(line@, '#');
                        }
                        let n_aliases = af.flag_aliases.len();
                        let alias_key: String = match text::find_char(line, '#') {
                            Some(cp) => {
                                let comment = text::trim(line.substring_char(cp + 1, llen));
                                let v: u32 = match text::parse_u32_str(comment) {
                                    Some(v) => v,
                                    None => #[verifier::truncate] (((n_aliases as u128)
                                        + 1) as u32),
                                };
                                text::u32_to_string(v)
                            },
                            None => {
                                let k = #[verifier::truncate] (((n_aliases as u128) + 1)
                                    as usize);
                                text::usize_to_string(k)
                            },
                        };
                        proof {
                            assert(alias_key@ == af_key_spec(
                                line@,
                                aliases_model(af.flag_aliases@).len() as int,
                            ));
                        }
                        let flags: Vec<String> = match af.flag_type {
                            FlagType::Long => text::split_pairs(parts[1].as_str()),
                            _ => text::split_singles(parts[1].as_str()),
                        };
                        alias_put(&mut af.flag_aliases, alias_key, flags);
                        proof {
                            assert(file_model(af) =~= af_step_spec(st, line@, pv[1]));
                        }
                    }
                    i += 1;
                } else if (text::str_eq(parts[0].as_str(), "PFX") || text::str_eq(
                    parts[0].as_str(),
                    "SFX",
                )) && parts.len() >= 4 && (text::str_eq(parts[2].as_str(), "Y")
                    || text::str_eq(parts[2].as_str(), "N")) {
                    proof {
                        assert(pv[2] == parts@[2]@);
                    }
                    let is_prefix = text::str_eq(parts[0].as_str(), "PFX");
                    match af.parse_affix_block(&lines, i, &parts, is_prefix) {
                        Ok(adv) => {
                            proof {
                                let res = block_spec(lv, i as int)->Some_0;
                                if is_prefix {
                                    assert(file_model(af) =~= AffixFileModel {
                                        prefixes: assoc_insert(st.prefixes, res.1, res.3),
                                        suffixes: st.suffixes,
                                        flag_type: st.flag_type,
                                        fullstrip: st.fullstrip,
                                        flag_aliases: st.flag_aliases,
                                    });
                                } else {
                                    assert(file_model(af) =~= AffixFileModel {
                                        prefixes: st.prefixes,
                                        suffixes: assoc_insert(st.suffixes, res.1, res.3),
                                        flag_type: st.flag_type,
                                        fullstrip: st.fullstrip,
                                        flag_aliases: st.flag_aliases,
                                    });
                                }
                            }
                            i += adv;
                        },
                        Err(e) => {
                            return Err(e);
                        },
                    }
                } else {
                    i += 1;
                }
            }
        }
        Ok(af)
    }
}

} // verus!
