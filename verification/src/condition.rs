//! The condition compiler: a rule's condition text is a position-anchored
//! pattern over single characters, compiled once into an immutable matcher.
//!
//! The pattern grammar: `.` matches any one character, `[abc]` one character
//! of the enumerated set, `[^abc]` one character outside it, and any other
//! character matches itself.  An unclosed `[` class is a compile failure.
//! A compiled pattern is searched for anywhere inside a fixed-length window
//! of the word; the window's length is the character count of the source
//! text, and an empty source or a bare `.` matches unconditionally.

use vstd::prelude::*;

use crate::error::RunmunchError;
use crate::text;

verus! {

/// One compiled pattern element; each matches exactly one character.
#[derive(Clone)]
pub enum CondAtom {
    /// `.`: any character.
    Any,
    /// A literal character.
    Lit(char),
    /// `[...]` (or, negated, `[^...]`): one character in (out of) the set.
    Class { negated: bool, chars: Vec<char> },
}

/// The mathematical image of a compiled pattern element.
pub enum AtomModel {
    Any,
    Lit(char),
    Class { negated: bool, chars: Seq<char> },
}

impl CondAtom {
    /// The model of this atom.
    pub open spec fn model(self) -> AtomModel {
        match self {
            CondAtom::Any => AtomModel::Any,
            CondAtom::Lit(c) => AtomModel::Lit(c),
            CondAtom::Class { negated, chars } => AtomModel::Class {
                negated,
                chars: chars@,
            },
        }
    }
}

/// The models of a compiled atom sequence.
pub open spec fn atoms_model(v: Seq<CondAtom>) -> Seq<AtomModel> {
    Seq::new(v.len(), |i: int| v[i].model())
}

/// Whether one atom accepts one character.
pub open spec fn atom_matches(a: AtomModel, c: char) -> bool {
    match a {
        AtomModel::Any => true,
        AtomModel::Lit(l) => l == c,
        AtomModel::Class { negated, chars } => negated != chars.contains(c),
    }
}

/// Whether the pattern matches `w` starting at position `i`.
pub open spec fn atoms_match_at(atoms: Seq<AtomModel>, w: Seq<char>, i: int) -> bool {
    forall|j: int| 0 <= j < atoms.len() ==> atom_matches(atoms[j], w[i + j])
}

/// Whether the pattern occurs anywhere inside the window `w`
/// (an unanchored search, as the reference matcher performs it).
pub open spec fn window_matches(atoms: Seq<AtomModel>, w: Seq<char>) -> bool {
    exists|i: int| 0 <= i && i + atoms.len() <= w.len() && atoms_match_at(atoms, w, i)
}

/// The compiled atoms of condition text `s`, or `None` on an unclosed
/// bracket class.  `[` opens a class ended by the next `]`; a `^` directly
/// after `[` negates it; `.` compiles to [`AtomModel::Any`]; anything else
/// to a literal.
pub open spec fn compile_spec(s: Seq<char>) -> Option<Seq<AtomModel>>
    decreases s.len(),
    via compile_spec_dec
{
    if s.len() == 0 {
        Some(Seq::empty())
    } else if s[0] == '[' {
        let negated = s.len() > 1 && s[1] == '^';
        let body_start: int = if negated {
            2
        } else {
            1
        };
        let rel = text::find_spec(s.skip(body_start), ']');
        if rel < 0 {
            None
        } else {
            let atom = AtomModel::Class { negated, chars: s.skip(body_start).take(rel) };
            match compile_spec(s.skip(body_start + rel + 1)) {
                None => None,
                Some(rest) => Some(seq![atom] + rest),
            }
        }
    } else if s[0] == '.' {
        match compile_spec(s.skip(1)) {
            None => None,
            Some(rest) => Some(seq![AtomModel::Any] + rest),
        }
    } else {
        match compile_spec(s.skip(1)) {
            None => None,
            Some(rest) => Some(seq![AtomModel::Lit(s[0])] + rest),
        }
    }
}

#[via_fn]
proof fn compile_spec_dec(s: Seq<char>) {
    if s.len() > 0 && s[0] == '[' {
        let negated = s.len() > 1 && s[1] == '^';
        let body_start: int = if negated {
            2
        } else {
            1
        };
        text::lemma_find_spec(s.skip(body_start), ']');
    }
}

/// A compiled rule condition.  `always` records a source of `""` or `"."`,
/// which matches unconditionally; otherwise `atoms` is the compiled pattern
/// and `window_len` the character count of the source text, giving the
/// window of the word the pattern is searched in.
#[derive(Clone)]
pub struct Condition {
    pub always: bool,
    pub atoms: Vec<CondAtom>,
    pub window_len: usize,
}

impl Condition {
    /// Whether this condition accepts the window `w`.
    pub open spec fn spec_matches(self, w: Seq<char>) -> bool {
        self.always || window_matches(atoms_model(self.atoms@), w)
    }

    /// Compiles condition text.  Returns `Err(InvalidAffix(_))` exactly when
    /// the text has an unclosed bracket class.
    pub fn compile(src: &str) -> (r: Result<Condition, RunmunchError>)
        ensures
            r matches Ok(c) ==> {
                &&& compile_spec(src@) is Some
                &&& c.window_len == src@.len()
                &&& c.always == (src@.len() == 0 || src@ == seq!['.'])
                &&& c.always ==> c.atoms@.len() == 0
                &&& !c.always ==> Some(atoms_model(c.atoms@)) == compile_spec(src@)
            },
            r matches Err(e) ==> compile_spec(src@) is None && e matches RunmunchError::InvalidAffix(_),
    {
        let n = src.unicode_len();
        if n == 0 {
            return Ok(Condition { always: true, atoms: Vec::new(), window_len: 0 });
        }
        if n == 1 && src.get_char(0) == '.' {
            proof {
                assert(src@ =~= seq!['.']);
                assert(compile_spec(src@.skip(1)) == Some(Seq::<AtomModel>::empty()));
            }
            return Ok(Condition { always: true, atoms: Vec::new(), window_len: 1 });
        }
        let mut atoms: Vec<CondAtom> = Vec::new();
        let mut i: usize = 0;
        proof {
            assert(src@.skip(0) =~= src@);
            assert(atoms_model(atoms@) =~= Seq::<AtomModel>::empty());
        }
        while i < n
            invariant
                i <= n,
                n == src@.len(),
                (match compile_spec(src@.skip(i as int)) {
                    Some(rest) => compile_spec(src@) == Some(atoms_model(atoms@) + rest),
                    None => compile_spec(src@) is None,
                }),
            decreases n - i,
        {
            let ghost rest0 = src@.skip(i as int);
            proof {
                assert(rest0[0] == src@[i as int]);
            }
            let c = src.get_char(i);
            if c == '[' {
                let negated = i + 1 < n && src.get_char(i + 1) == '^';
                let bs: usize = if negated {
                    i + 2
                } else {
                    i + 1
                };
                proof {
                    if bs == i + 2 {
                        assert(rest0.len() > 1 && rest0[1] == src@[i + 1]);
                    } else {
                        assert(i + 1 < n ==> rest0[1] == src@[i + 1]);
                    }
                }
                let mut j: usize = bs;
                let mut chars: Vec<char> = Vec::new();
                proof {
                    assert(chars@ =~= src@.subrange(bs as int, bs as int));
                }
                while j < n && src.get_char(j) != ']'
                    invariant
                        bs <= j <= n,
                        n == src@.len(),
                        chars@ =~= src@.subrange(bs as int, j as int),
                        forall|k: int| bs <= k < j ==> src@[k] != ']',
                    decreases n - j,
                {
                    chars.push(src.get_char(j));
                    proof {
                        assert(chars@ =~= src@.subrange(bs as int, j as int + 1));
                    }
                    j += 1;
                }
                let ghost tail = rest0.skip(bs as int - i);
                proof {
                    text::lemma_find_spec(tail, ']');
                    assert forall|k: int| 0 <= k < tail.len() implies tail[k] == src@[
                        bs + k
                    ] by {}
                }
                if j == n {
                    proof {
                        let rel = text::find_spec(tail, ']');
                        if rel >= 0 {
                            assert(tail[rel] == ']');
                            assert(src@[bs + rel] == ']');
                        }
                        assert(compile_spec(rest0) is None);
                    }
                    return Err(
                        RunmunchError::InvalidAffix("Unclosed bracket in condition".to_owned()),
                    );
                }
                proof {
                    let rel = text::find_spec(tail, ']');
                    assert(tail[j - bs] == src@[j as int]);
                    assert(src@[j as int] == ']');
                    if rel < 0 {
                        assert(tail[j - bs] != ']');
                    }
                    assert(rel >= 0);
                    if rel < j - bs {
                        assert(src@[bs + rel] == ']');
                    }
                    if rel > j - bs {
                        assert(tail[j - bs] != ']');
                    }
                    assert(rel == j - bs);
                    assert(tail.take(rel) =~= src@.subrange(bs as int, j as int));
                }
                let atom = CondAtom::Class { negated, chars };
                atoms.push(atom);
                proof {
                    let ghost m = AtomModel::Class {
                        negated,
                        chars: src@.subrange(bs as int, j as int),
                    };
                    assert(atom.model() == m);
                    assert(rest0.skip((bs - i) + (j - bs) + 1) =~= src@.skip(j as int + 1));
                    assert(atoms_model(atoms@) =~= atoms_model(
                        atoms@.subrange(0, atoms@.len() - 1),
                    ).push(m));
                    match compile_spec(src@.skip(j as int + 1)) {
                        Some(rest) => {
                            assert(compile_spec(rest0) == Some(seq![m] + rest));
                            assert(atoms_model(atoms@.subrange(0, atoms@.len() - 1)) + (seq![m]
                                + rest) =~= atoms_model(atoms@) + rest);
                        },
                        None => {
                            assert(compile_spec(rest0) is None);
                        },
                    }
                }
                i = j + 1;
            } else {
                let atom = if c == '.' {
                    CondAtom::Any
                } else {
                    CondAtom::Lit(c)
                };
                atoms.push(atom);
                proof {
                    let ghost m = atom.model();
                    assert(rest0.skip(1) =~= src@.skip(i as int + 1));
                    assert(atoms_model(atoms@) =~= atoms_model(
                        atoms@.subrange(0, atoms@.len() - 1),
                    ).push(m));
                    match compile_spec(src@.skip(i as int + 1)) {
                        Some(rest) => {
                            assert(compile_spec(rest0) == Some(seq![m] + rest));
                            assert(atoms_model(atoms@.subrange(0, atoms@.len() - 1)) + (seq![m]
                                + rest) =~= atoms_model(atoms@) + rest);
                        },
                        None => {
                            assert(compile_spec(rest0) is None);
                        },
                    }
                }
                i += 1;
            }
        }
        proof {
            assert(src@.skip(n as int) =~= Seq::<char>::empty());
            assert(compile_spec(src@.skip(n as int)) == Some(Seq::<AtomModel>::empty()));
            assert(atoms_model(atoms@) + Seq::<AtomModel>::empty() =~= atoms_model(atoms@));
            if n == 1 {
                assert(src@[0] != '.');
                assert(!(src@ == seq!['.'])) by {
                    assert(seq!['.'][0] == '.');
                }
            }
            if src@ == seq!['.'] {
                assert(src@[0] == '.');
            }
        }
        Ok(Condition { always: false, atoms, window_len: n })
    }

    /// Whether one atom accepts one character.
    fn atom_match(a: &CondAtom, c: char) -> (r: bool)
        ensures
            r == atom_matches(a.model(), c),
    {
        match a {
            CondAtom::Any => true,
            CondAtom::Lit(l) => *l == c,
            CondAtom::Class { negated, chars } => {
                let mut k: usize = 0;
                let mut found = false;
                while k < chars.len()
                    invariant
                        k <= chars@.len(),
                        found == exists|t: int| 0 <= t < k && chars@[t] == c,
                    decreases chars@.len() - k,
                {
                    if chars[k] == c {
                        found = true;
                    }
                    k += 1;
                }
                proof {
                    if chars@.contains(c) {
                        let t = choose|t: int| 0 <= t < chars@.len() && chars@[t] == c;
                        assert(0 <= t < k && chars@[t] == c);
                    }
                }
                *negated != found
            },
        }
    }

    /// Whether this condition accepts the window `w`.
    pub fn matches(&self, w: &str) -> (r: bool)
        ensures
            r == self.spec_matches(w@),
    {
        if self.always {
            return true;
        }
        let ghost m = atoms_model(self.atoms@);
        let alen = self.atoms.len();
        let wlen = w.unicode_len();
        if alen > wlen {
            proof {
                if window_matches(m, w@) {
                    let i = choose|i: int| 0 <= i && i + m.len() <= w@.len() && atoms_match_at(
                        m,
                        w@,
                        i,
                    );
                }
            }
            return false;
        }
        let mut i: usize = 0;
        while i <= wlen - alen
            invariant
                i <= wlen - alen + 1,
                alen <= wlen,
                alen == self.atoms@.len(),
                wlen == w@.len(),
                m == atoms_model(self.atoms@),
                forall|k: int| 0 <= k < i ==> !atoms_match_at(m, w@, k),
            decreases wlen - alen - i + 1,
        {
            let mut j: usize = 0;
            let mut ok = true;
            while j < alen && ok
                invariant
                    j <= alen,
                    i + alen <= wlen,
                    alen == self.atoms@.len(),
                    wlen == w@.len(),
                    m == atoms_model(self.atoms@),
                    ok ==> forall|t: int| 0 <= t < j ==> atom_matches(m[t], w@[i + t]),
                    !ok ==> !atoms_match_at(m, w@, i as int),
                decreases alen - j + (if ok {
                    1int
                } else {
                    0int
                }),
            {
                if !Self::atom_match(&self.atoms[j], w.get_char(i + j)) {
                    proof {
                        assert(!atom_matches(m[j as int], w@[i + j]));
                    }
                    ok = false;
                } else {
                    j += 1;
                }
            }
            if ok {
                proof {
                    assert(atoms_match_at(m, w@, i as int));
                }
                return true;
            }
            i += 1;
        }
        proof {
            if window_matches(m, w@) {
                let k = choose|k: int| 0 <= k && k + m.len() <= w@.len() && atoms_match_at(
                    m,
                    w@,
                    k,
                );
                assert(!atoms_match_at(m, w@, k));
            }
        }
        false
    }
}

} // verus!
