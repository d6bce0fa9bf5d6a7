//! Affix rules: one prefix or suffix transformation, with its application,
//! its candidate-generating inverse, and the proof that the inverse undoes
//! the application exactly.
//!
//! All lengths and offsets are character counts, never byte counts.

use vstd::prelude::*;

use crate::condition::{atoms_model, window_matches, Condition};
use crate::error::RunmunchError;
use crate::text;

verus! {

/// Whether a rule transforms the front or the back of a word.
#[derive(Debug, Clone, Copy, PartialEq, Eq, Structural)]
pub enum AffixType {
    Prefix,
    Suffix,
}

/// One affix transformation: under `flag`, strip `strip`, add `affix`,
/// subject to `condition`; `cross_product` permits composing with an
/// opposite-kind rule in one derivation.
#[derive(Clone)]
pub struct AffixRule {
    pub flag: String,
    pub cross_product: bool,
    pub strip: String,
    pub affix: String,
    pub condition: Condition,
}

/// Whether `r` applies to `w`: the word must be at least as long as the
/// strip text, carry it at the rule's end of the word, and satisfy the
/// condition over the window adjacent to the strip point (for prefix rules,
/// the characters after the stripped region; for suffix rules, the trailing
/// `window_len` characters of the word).
pub open spec fn spec_can_apply(r: AffixRule, w: Seq<char>, t: AffixType) -> bool {
    if w.len() < r.strip@.len() {
        false
    } else {
        match t {
            AffixType::Prefix => {
                if r.strip@.len() > 0 && !r.strip@.is_prefix_of(w) {
                    false
                } else if r.condition.always {
                    true
                } else {
                    let start = r.strip@.len() as int;
                    let end = if w.len() < start + r.condition.window_len {
                        w.len() as int
                    } else {
                        start + r.condition.window_len
                    };
                    start < w.len() && window_matches(
                        atoms_model(r.condition.atoms@),
                        w.subrange(start, end),
                    )
                }
            },
            AffixType::Suffix => {
                if r.strip@.len() > 0 && !r.strip@.is_suffix_of(w) {
                    false
                } else if r.condition.always {
                    true
                } else {
                    let start = if w.len() < r.condition.window_len {
                        0int
                    } else {
                        w.len() - r.condition.window_len
                    };
                    window_matches(
                        atoms_model(r.condition.atoms@),
                        w.subrange(start, w.len() as int),
                    )
                }
            },
        }
    }
}

/// The application of `r` to `w`: strip `strip`, then add `affix`, at the
/// rule's end of the word.
pub open spec fn spec_apply(r: AffixRule, w: Seq<char>, t: AffixType) -> Seq<char> {
    match t {
        AffixType::Prefix => r.affix@ + w.skip(r.strip@.len() as int),
        AffixType::Suffix => w.take(w.len() - r.strip@.len()) + r.affix@,
    }
}

/// The candidate-generating inverse of `r` on `w`: remove `affix` where the
/// rule added it — `None` if it is absent — and put `strip` back.  A result
/// is a syntactically plausible stem only; callers must verify it by forward
/// expansion.
pub open spec fn spec_reverse_apply(r: AffixRule, w: Seq<char>, t: AffixType) -> Option<
    Seq<char>,
> {
    match t {
        AffixType::Prefix => {
            if r.affix@.len() > 0 && !r.affix@.is_prefix_of(w) {
                None
            } else {
                Some(r.strip@ + w.skip(r.affix@.len() as int))
            }
        },
        AffixType::Suffix => {
            if r.affix@.len() > 0 && !r.affix@.is_suffix_of(w) {
                None
            } else {
                Some(w.take(w.len() - r.affix@.len()) + r.strip@)
            }
        },
    }
}

impl AffixRule {
    /// Builds a rule, compiling `condition_str`; fails exactly when the
    /// condition has an unclosed bracket class.
    pub fn new(
        flag: String,
        cross_product: bool,
        strip: String,
        affix: String,
        condition_str: String,
    ) -> (r: Result<AffixRule, RunmunchError>)
        ensures
            r matches Ok(rule) ==> {
                &&& rule.flag == flag
                &&& rule.cross_product == cross_product
                &&& rule.strip == strip
                &&& rule.affix == affix
                &&& crate::condition::compile_spec(condition_str@) is Some
                &&& rule.condition.window_len == condition_str@.len()
                &&& rule.condition.always == (condition_str@.len() == 0 || condition_str@
                    == seq!['.'])
                &&& rule.condition.always ==> rule.condition.atoms@.len() == 0
                &&& !rule.condition.always ==> Some(atoms_model(rule.condition.atoms@))
                    == crate::condition::compile_spec(condition_str@)
            },
            r matches Err(e) ==> crate::condition::compile_spec(condition_str@) is None
                && e matches RunmunchError::InvalidAffix(_),
    {
        let condition = match Condition::compile(condition_str.as_str()) {
            Ok(c) => c,
            Err(e) => {
                return Err(e);
            },
        };
        Ok(AffixRule { flag, cross_product, strip, affix, condition })
    }

    /// Whether this rule applies to `word`.
    pub fn can_apply(&self, word: &str, affix_type: &AffixType) -> (r: bool)
        ensures
            r == spec_can_apply(*self, word@, *affix_type),
    {
        let wlen = word.unicode_len();
        let slen = self.strip.unicode_len();
        if wlen < slen {
            return false;
        }
        match affix_type {
            AffixType::Prefix => {
                if slen > 0 && !text::str_starts_with(word, self.strip.as_str()) {
                    return false;
                }
                if self.condition.always {
                    true
                } else {
                    let start = slen;
                    if start >= wlen {
                        return false;
                    }
                    let end = if wlen - start < self.condition.window_len {
                        wlen
                    } else {
                        start + self.condition.window_len
                    };
                    let window = word.substring_char(start, end);
                    self.condition.matches(window)
                }
            },
            AffixType::Suffix => {
                if slen > 0 && !text::str_ends_with(word, self.strip.as_str()) {
                    return false;
                }
                if self.condition.always {
                    true
                } else {
                    let start = if wlen < self.condition.window_len {
                        0
                    } else {
                        wlen - self.condition.window_len
                    };
                    let window = word.substring_char(start, wlen);
                    self.condition.matches(window)
                }
            },
        }
    }

    /// Applies this rule to `word`.  The word must be at least as long as
    /// the strip text (which holds whenever the rule can apply).
    pub fn apply(&self, word: &str, affix_type: &AffixType) -> (r: String)
        requires
            self.strip@.len() <= word@.len(),
        ensures
            r@ == spec_apply(*self, word@, *affix_type),
    {
        let wlen = word.unicode_len();
        let slen = self.strip.unicode_len();
        match affix_type {
            AffixType::Prefix => {
                let rem = word.substring_char(slen, wlen);
                let mut out = self.affix.clone();
                out.append(rem);
                out
            },
            AffixType::Suffix => {
                let keep = word.substring_char(0, wlen - slen);
                let mut out = keep.to_owned();
                out.append(self.affix.as_str());
                out
            },
        }
    }

    /// Reverse-applies this rule to `word`: `None` when the added text is
    /// absent, otherwise the candidate stem.
    pub fn reverse_apply(&self, word: &str, affix_type: &AffixType) -> (r: Option<String>)
        ensures
            (match r {
                Some(s) => spec_reverse_apply(*self, word@, *affix_type) == Some(s@),
                None => spec_reverse_apply(*self, word@, *affix_type) is None,
            }),
    {
        let wlen = word.unicode_len();
        let alen = self.affix.unicode_len();
        match affix_type {
            AffixType::Prefix => {
                if alen > 0 && !text::str_starts_with(word, self.affix.as_str()) {
                    return None;
                }
                let rem = word.substring_char(alen, wlen);
                let mut out = self.strip.clone();
                out.append(rem);
                Some(out)
            },
            AffixType::Suffix => {
                if alen > 0 && !text::str_ends_with(word, self.affix.as_str()) {
                    return None;
                }
                let keep = word.substring_char(0, wlen - alen);
                let mut out = keep.to_owned();
                out.append(self.strip.as_str());
                Some(out)
            },
        }
    }
}

/// Law: for every rule `r` and word `w` that `r` can apply to, reverse
/// application recovers `w` from the applied form exactly.
pub proof fn lemma_apply_reverse_round_trip(r: AffixRule, w: Seq<char>, t: AffixType)
    requires
        spec_can_apply(r, w, t),
    ensures
        spec_reverse_apply(r, spec_apply(r, w, t), t) == Some(w),
{
    let k = r.strip@.len() as int;
    let alen = r.affix@.len() as int;
    match t {
        AffixType::Prefix => {
            let a = r.affix@ + w.skip(k);
            assert(a.take(alen) =~= r.affix@);
            assert(r.affix@.is_prefix_of(a));
            assert(a.skip(alen) =~= w.skip(k));
            if k > 0 {
                assert(r.strip@ =~= w.take(k));
            } else {
                assert(r.strip@ =~= w.take(k));
            }
            assert(r.strip@ + a.skip(alen) =~= w);
        },
        AffixType::Suffix => {
            let n = w.len() as int;
            let a = w.take(n - k) + r.affix@;
            assert(a.skip(a.len() - alen) =~= r.affix@);
            assert(r.affix@.is_suffix_of(a));
            assert(a.take(a.len() - alen) =~= w.take(n - k));
            if k > 0 {
                assert(r.strip@ =~= w.skip(n - k));
            } else {
                assert(r.strip@ =~= w.skip(n - k));
            }
            assert(a.take(a.len() - alen) + r.strip@ =~= w);
        },
    }
}

} // verus!
