use vstd::prelude::*;

verus! {

/// One compiled element of an affix condition pattern: a wildcard, a
/// literal character, or a (possibly negated) character class.
#[derive(Clone, Debug, PartialEq, Eq)]
#[verifier::ext_equal]
pub enum CondAtom {
    Any,
    Char(char),
    Class { negated: bool, chars: Vec<char> },
}

/// The mathematical shape of a compiled condition element.
#[verifier::ext_equal]
pub enum AtomModel {
    Any,
    Char(char),
    Class { negated: bool, chars: Seq<char> },
}

pub open spec fn atom_view(a: CondAtom) -> AtomModel {
    match a {
        CondAtom::Any => AtomModel::Any,
        CondAtom::Char(c) => AtomModel::Char(c),
        CondAtom::Class { negated, chars } => AtomModel::Class { negated, chars: chars@ },
    }
}

pub open spec fn atoms_view(s: Seq<CondAtom>) -> Seq<AtomModel>
    decreases s.len(),
{
    if s.len() == 0 {
        Seq::empty()
    } else {
        atoms_view(s.drop_last()) + seq![atom_view(s.last())]
    }
}

pub proof fn lemma_atoms_view_len(s: Seq<CondAtom>)
    ensures
        atoms_view(s).len() == s.len(),
    decreases s.len(),
{
    if s.len() > 0 {
        lemma_atoms_view_len(s.drop_last());
    }
}

pub proof fn lemma_atoms_view_index(s: Seq<CondAtom>, i: int)
    requires
        0 <= i < s.len(),
    ensures
        atoms_view(s).len() == s.len(),
        atoms_view(s)[i] == atom_view(s[i]),
    decreases s.len(),
{
    lemma_atoms_view_len(s);
    if i < s.len() - 1 {
        lemma_atoms_view_index(s.drop_last(), i);
    } else {
        lemma_atoms_view_len(s.drop_last());
    }
}

/// Whether one condition element accepts one character.
pub open spec fn atom_matches(a: AtomModel, c: char) -> bool {
    match a {
        AtomModel::Any => true,
        AtomModel::Char(d) => c == d,
        AtomModel::Class { negated, chars } => negated != chars.contains(c),
    }
}

/// Whether a compiled condition matches the relevant edge of a word:
/// its trailing characters for a suffix rule, its leading characters
/// for a prefix rule. A word shorter than the condition never matches.
pub open spec fn condition_matches(cond: Seq<AtomModel>, word: Seq<char>, suffix: bool) -> bool {
    &&& cond.len() <= word.len()
    &&& forall|i: int|
        0 <= i < cond.len() ==> atom_matches(
            #[trigger] cond[i],
            word[(if suffix {
                word.len() - cond.len()
            } else {
                0
            }) + i],
        )
}

/// The index of the first closing bracket at or after `i`.
pub open spec fn find_close(p: Seq<char>, i: int) -> Option<int>
    decreases p.len() - i,
{
    if i < 0 || i >= p.len() {
        None
    } else if p[i] == ']' {
        Some(i)
    } else {
        find_close(p, i + 1)
    }
}

proof fn lemma_find_close_bounds(p: Seq<char>, i: int)
    ensures
        match find_close(p, i) {
            Some(ci) => i <= ci < p.len() && p[ci] == ']',
            None => true,
        },
    decreases p.len() - i,
{
    if 0 <= i < p.len() && p[i] != ']' {
        lemma_find_close_bounds(p, i + 1);
    }
}

/// If no closing bracket stands in `[i, j)`, the search from `i` and
/// the search from `j` agree.
proof fn lemma_find_close_skip(p: Seq<char>, i: int, j: int)
    requires
        0 <= i <= j,
        j <= p.len(),
        forall|m: int| i <= m < j ==> (#[trigger] p[m]) != ']',
    ensures
        find_close(p, i) == find_close(p, j),
    decreases j - i,
{
    if i < j {
        assert(p[i] != ']');
        lemma_find_close_skip(p, i + 1, j);
    }
}

/// The compact edge-matching pattern language, compiled from position
/// `i` on: `.` is a wildcard, `[...]` a character class with an
/// optional leading `^` for negation, anything else a literal. An
/// unclosed class makes the whole pattern malformed.
pub open spec fn compile_from(p: Seq<char>, i: int) -> Option<Seq<AtomModel>>
    decreases p.len() - i,
    via compile_from_decreases
{
    if i < 0 || i >= p.len() {
        Some(Seq::empty())
    } else if p[i] == '[' {
        let negated = i + 1 < p.len() && p[i + 1] == '^';
        let b = if negated {
            i + 2
        } else {
            i + 1
        };
        match find_close(p, b) {
            None => None,
            Some(ci) => match compile_from(p, ci + 1) {
                None => None,
                Some(rest) => Some(
                    seq![AtomModel::Class { negated, chars: p.subrange(b, ci) }] + rest,
                ),
            },
        }
    } else if p[i] == '.' {
        match compile_from(p, i + 1) {
            None => None,
            Some(rest) => Some(seq![AtomModel::Any] + rest),
        }
    } else {
        match compile_from(p, i + 1) {
            None => None,
            Some(rest) => Some(seq![AtomModel::Char(p[i])] + rest),
        }
    }
}

#[via_fn]
proof fn compile_from_decreases(p: Seq<char>, i: int) {
    if 0 <= i < p.len() && p[i] == '[' {
        let negated = i + 1 < p.len() && p[i + 1] == '^';
        let b = if negated {
            i + 2
        } else {
            i + 1
        };
        lemma_find_close_bounds(p, b);
    }
}

/// A whole pattern's compilation.
pub open spec fn spec_compile(p: Seq<char>) -> Option<Seq<AtomModel>> {
    compile_from(p, 0)
}

fn make_char_atom(c: char) -> (r: CondAtom)
    ensures
        r == CondAtom::Char(c),
{
    CondAtom::Char(c)
}

fn make_class_atom(negated: bool, chars: Vec<char>) -> (r: CondAtom)
    ensures
        r == (CondAtom::Class { negated, chars }),
{
    CondAtom::Class { negated, chars }
}

/// One compilation step: consuming the atom at `i` extends the
/// already-compiled prefix and moves the cursor to `next`.
proof fn lemma_compile_step(pat: Seq<char>, i: int, next: int, prefix: Seq<AtomModel>, a: AtomModel)
    requires
        compile_from(pat, 0) == (match compile_from(pat, i) {
            Some(rest) => Some(prefix + rest),
            None => None::<Seq<AtomModel>>,
        }),
        compile_from(pat, i) == (match compile_from(pat, next) {
            Some(rest) => Some(seq![a] + rest),
            None => None::<Seq<AtomModel>>,
        }),
    ensures
        compile_from(pat, 0) == (match compile_from(pat, next) {
            Some(rest) => Some((prefix + seq![a]) + rest),
            None => None::<Seq<AtomModel>>,
        }),
{
    match compile_from(pat, next) {
        Some(rest) => {
            assert(prefix + (seq![a] + rest) =~= (prefix + seq![a]) + rest);
        },
        None => {},
    }
}

/// Pre-compiles one condition pattern into executable matcher atoms.
/// Returns `None` exactly on malformed patterns.
#[verifier::loop_isolation(false)]
pub fn compile_condition(pattern: &Vec<char>) -> (r: Option<Vec<CondAtom>>)
    ensures
        match r {
            Some(v) => spec_compile(pattern@) == Some(atoms_view(v@)),
            None => spec_compile(pattern@) is None,
        },
{
    let n = pattern.len();
    let mut out: Vec<CondAtom> = Vec::new();
    let mut i: usize = 0;
    proof {
        assert(atoms_view(out@) == Seq::<AtomModel>::empty());
    }
    while i < n
        invariant
            i <= n,
            compile_from(pattern@, 0) == (match compile_from(pattern@, i as int) {
                Some(rest) => Some(atoms_view(out@) + rest),
                None => None::<Seq<AtomModel>>,
            }),
        decreases n - i,
    {
        let ghost pat = pattern@;
        let ghost prev = out@;
        let c = pattern[i];
        let next: usize;
        if c == '[' {
            let mut j = i + 1;
            let mut negated = false;
            if j < n && pattern[j] == '^' {
                negated = true;
                j = j + 1;
            }
            let ghost b = j as int;
            let mut chars: Vec<char> = Vec::new();
            while j < n && pattern[j] != ']'
                invariant
                    b <= j <= n,
                    chars@ =~= pat.subrange(b, j as int),
                    forall|m: int| b <= m < j ==> (#[trigger] pat[m]) != ']',
                decreases n - j,
            {
                chars.push(pattern[j]);
                proof {
                    assert(chars@ =~= pat.subrange(b, j + 1));
                }
                j = j + 1;
            }
            proof {
                lemma_find_close_skip(pat, b, j as int);
            }
            if j >= n {
                proof {
                    assert(find_close(pat, b) is None);
                    assert(compile_from(pat, i as int) is None);
                }
                return None;
            }
            let ghost a = AtomModel::Class { negated, chars: chars@ };
            let atom = make_class_atom(negated, chars);
            next = j + 1;
            proof {
                assert(pat[j as int] == ']');
                assert(find_close(pat, b) == Some(j as int));
                assert(atom_view(atom) == a);
                assert(compile_from(pat, i as int) == (match compile_from(pat, next as int) {
                    Some(rest) => Some(seq![a] + rest),
                    None => None::<Seq<AtomModel>>,
                }));
                lemma_compile_step(pat, i as int, next as int, atoms_view(prev), a);
            }
            out.push(atom);
            proof {
                assert(out@.drop_last() =~= prev);
                assert(atom_view(out@.last()) == a);
                assert(atoms_view(out@) == atoms_view(prev) + seq![a]);
            }
        } else if c == '.' {
            let ghost a = AtomModel::Any;
            next = i + 1;
            proof {
                assert(compile_from(pat, i as int) == (match compile_from(pat, next as int) {
                    Some(rest) => Some(seq![a] + rest),
                    None => None::<Seq<AtomModel>>,
                }));
                lemma_compile_step(pat, i as int, next as int, atoms_view(prev), a);
            }
            out.push(CondAtom::Any);
            proof {
                assert(out@.drop_last() =~= prev);
                assert(atom_view(out@.last()) == a);
                assert(atoms_view(out@) == atoms_view(prev) + seq![a]);
            }
        } else {
            let ghost a = AtomModel::Char(c);
            next = i + 1;
            proof {
                assert(compile_from(pat, i as int) == (match compile_from(pat, next as int) {
                    Some(rest) => Some(seq![a] + rest),
                    None => None::<Seq<AtomModel>>,
                }));
                lemma_compile_step(pat, i as int, next as int, atoms_view(prev), a);
            }
            let atom = make_char_atom(c);
            out.push(atom);
            proof {
                assert(out@.drop_last() =~= prev);
                assert(atom_view(out@.last()) == a);
                assert(atoms_view(out@) == atoms_view(prev) + seq![a]);
            }
        }
        i = next;
    }
    proof {
        assert(compile_from(pattern@, n as int) == Some(Seq::<AtomModel>::empty()));
        assert(atoms_view(out@) + Seq::<AtomModel>::empty() =~= atoms_view(out@));
    }
    Some(out)
}

#[verifier::loop_isolation(false)]
fn atom_match(a: &CondAtom, c: char) -> (r: bool)
    ensures
        r == atom_matches(atom_view(*a), c),
{
    match a {
        CondAtom::Any => true,
        CondAtom::Char(d) => c == *d,
        CondAtom::Class { negated, chars } => {
            let mut found = false;
            let mut i: usize = 0;
            while i < chars.len()
                invariant
                    i <= chars@.len(),
                    found == chars@.subrange(0, i as int).contains(c),
                decreases chars@.len() - i,
            {
                proof {
                    assert(chars@.subrange(0, i + 1).drop_last() =~= chars@.subrange(0, i as int));
                }
                if chars[i] == c {
                    found = true;
                    proof {
                        assert(chars@.subrange(0, i + 1)[i as int] == c);
                    }
                } else {
                    proof {
                        if chars@.subrange(0, i + 1).contains(c) {
                            let w = choose|w: int|
                                0 <= w < i + 1 && #[trigger] chars@.subrange(0, i + 1)[w] == c;
                            assert(chars@.subrange(0, i as int).contains(c) ==> found);
                            if w < i {
                                assert(chars@.subrange(0, i as int)[w] == c);
                            }
                        }
                    }
                }
                i = i + 1;
            }
            proof {
                assert(chars@.subrange(0, chars@.len() as int) =~= chars@);
            }
            *negated != found
        },
    }
}

/// Checks a compiled condition against the relevant edge of a word.
#[verifier::loop_isolation(false)]
pub fn check_condition(cond: &Vec<CondAtom>, word: &Vec<char>, suffix: bool) -> (r: bool)
    ensures
        r == condition_matches(atoms_view(cond@), word@, suffix),
{
    proof {
        lemma_atoms_view_len(cond@);
    }
    if cond.len() > word.len() {
        return false;
    }
    let base = if suffix {
        word.len() - cond.len()
    } else {
        0
    };
    let mut i: usize = 0;
    while i < cond.len()
        invariant
            i <= cond@.len(),
            cond@.len() <= word@.len(),
            base == (if suffix {
                word@.len() - cond@.len()
            } else {
                0int
            }),
            forall|m: int|
                0 <= m < i ==> atom_matches(#[trigger] atoms_view(cond@)[m], word@[base + m]),
        decreases cond@.len() - i,
    {
        proof {
            lemma_atoms_view_index(cond@, i as int);
        }
        if !atom_match(&cond[i], word[base + i]) {
            assert(!atom_matches(atoms_view(cond@)[i as int], word@[base + i]));
            return false;
        }
        i = i + 1;
    }
    true
}

} // verus!
