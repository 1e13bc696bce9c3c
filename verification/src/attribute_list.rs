use vstd::prelude::*;

use crate::chars::{append_range, copy_range};
use crate::error::Error;
use crate::matcher::{
    AtomModel, CondAtom, atoms_view, check_condition, compile_condition, condition_matches,
    lemma_atoms_view_index, spec_compile,
};
use crate::word_list::MarkedWord;
use crate::word_map::WordMap;
use crate::word_metadata::{WordMetadata, empty_metadata, spec_merge};

verus! {

/// One conditional replacement step of an affix rule: strip `remove`
/// from the word's edge and attach `add` there, provided the compiled
/// `condition` matches that edge of the unmodified word.
pub struct Replacement {
    pub remove: Vec<char>,
    pub add: Vec<char>,
    pub condition: Vec<CondAtom>,
}

/// One affix rule: a suffix or prefix transformation with ordered
/// replacement steps and a metadata delta. All matching steps fire,
/// not only the first.
pub struct Expansion {
    pub suffix: bool,
    pub cross_product: bool,
    pub replacements: Vec<Replacement>,
    pub adds_metadata: WordMetadata,
}

/// The pre-compiled affix rule table: flag character to rule. Lookup
/// takes the first entry of a flag.
pub struct AttributeList {
    pub affixes: Vec<(char, Expansion)>,
}

/// The rule of the first entry carrying the flag, if any.
pub open spec fn spec_lookup(affixes: Seq<(char, Expansion)>, f: char) -> Option<Expansion>
    decreases affixes.len(),
{
    if affixes.len() == 0 {
        None
    } else if affixes.first().0 == f {
        Some(affixes.first().1)
    } else {
        spec_lookup(affixes.drop_first(), f)
    }
}

/// Whether `remove` stands at the relevant edge of the word.
pub open spec fn edge_matches(word: Seq<char>, rem: Seq<char>, suffix: bool) -> bool {
    rem.len() <= word.len() && (if suffix {
        word.skip(word.len() - rem.len()) == rem
    } else {
        word.take(rem.len() as int) == rem
    })
}

/// The surface form made by stripping `rem` and attaching `add` at the
/// relevant edge.
pub open spec fn spec_derived(word: Seq<char>, rem: Seq<char>, add: Seq<char>, suffix: bool) -> Seq<
    char,
> {
    if suffix {
        word.take(word.len() - rem.len()) + add
    } else {
        add + word.skip(rem.len() as int)
    }
}

/// One replacement step applied to a word: the derived form when the
/// condition matches the unmodified word's edge and `remove` stands
/// there, nothing otherwise.
pub open spec fn spec_apply_rep(word: Seq<char>, rep: Replacement, suffix: bool) -> Option<
    Seq<char>,
> {
    if condition_matches(atoms_view(rep.condition@), word, suffix) && edge_matches(
        word,
        rep.remove@,
        suffix,
    ) {
        Some(spec_derived(word, rep.remove@, rep.add@, suffix))
    } else {
        None
    }
}

/// The dictionary after firing the replacement steps in order, each
/// derived form entered with the merged metadata.
pub open spec fn expand_reps(
    m: Map<Seq<char>, WordMetadata>,
    word: Seq<char>,
    reps: Seq<Replacement>,
    suffix: bool,
    meta: WordMetadata,
) -> Map<Seq<char>, WordMetadata>
    decreases reps.len(),
{
    if reps.len() == 0 {
        m
    } else {
        let m1 = match spec_apply_rep(word, reps.first(), suffix) {
            Some(d) => m.insert(d, meta),
            None => m,
        };
        expand_reps(m1, word, reps.drop_first(), suffix, meta)
    }
}

/// The dictionary after every resolvable flag of the word has fired
/// its replacement steps. Unresolvable flags contribute nothing and
/// suppress nothing.
pub open spec fn expand_flags(
    m: Map<Seq<char>, WordMetadata>,
    word: Seq<char>,
    flags: Seq<char>,
    affixes: Seq<(char, Expansion)>,
    base: WordMetadata,
) -> Map<Seq<char>, WordMetadata>
    decreases flags.len(),
{
    if flags.len() == 0 {
        m
    } else {
        let m1 = match spec_lookup(affixes, flags.first()) {
            Some(e) => expand_reps(
                m,
                word,
                e.replacements@,
                e.suffix,
                spec_merge(base, e.adds_metadata),
            ),
            None => m,
        };
        expand_flags(m1, word, flags.drop_first(), affixes, base)
    }
}

/// The cross-product step for one suffix-derived form: every
/// cross-product prefix flag of the word fires on it.
pub open spec fn expand_prefix_cross(
    m: Map<Seq<char>, WordMetadata>,
    derived: Seq<char>,
    flags: Seq<char>,
    affixes: Seq<(char, Expansion)>,
    meta: WordMetadata,
) -> Map<Seq<char>, WordMetadata>
    decreases flags.len(),
{
    if flags.len() == 0 {
        m
    } else {
        let m1 = match spec_lookup(affixes, flags.first()) {
            Some(e) => if !e.suffix && e.cross_product {
                expand_reps(m, derived, e.replacements@, false, spec_merge(meta, e.adds_metadata))
            } else {
                m
            },
            None => m,
        };
        expand_prefix_cross(m1, derived, flags.drop_first(), affixes, meta)
    }
}

/// The cross-product pass over one suffix rule's replacement steps.
pub open spec fn expand_cross_reps(
    m: Map<Seq<char>, WordMetadata>,
    word: Seq<char>,
    reps: Seq<Replacement>,
    flags: Seq<char>,
    affixes: Seq<(char, Expansion)>,
    meta: WordMetadata,
) -> Map<Seq<char>, WordMetadata>
    decreases reps.len(),
{
    if reps.len() == 0 {
        m
    } else {
        let m1 = match spec_apply_rep(word, reps.first(), true) {
            Some(d) => expand_prefix_cross(m, d, flags, affixes, meta),
            None => m,
        };
        expand_cross_reps(m1, word, reps.drop_first(), flags, affixes, meta)
    }
}

/// The cross-product pass: one cross-product suffix flag and one
/// cross-product prefix flag of the same word combine, the prefix
/// applied to each suffix-derived form.
pub open spec fn expand_cross_flags(
    m: Map<Seq<char>, WordMetadata>,
    word: Seq<char>,
    outer: Seq<char>,
    flags: Seq<char>,
    affixes: Seq<(char, Expansion)>,
    base: WordMetadata,
) -> Map<Seq<char>, WordMetadata>
    decreases outer.len(),
{
    if outer.len() == 0 {
        m
    } else {
        let m1 = match spec_lookup(affixes, outer.first()) {
            Some(e) => if e.suffix && e.cross_product {
                expand_cross_reps(
                    m,
                    word,
                    e.replacements@,
                    flags,
                    affixes,
                    spec_merge(base, e.adds_metadata),
                )
            } else {
                m
            },
            None => m,
        };
        expand_cross_flags(m1, word, outer.drop_first(), flags, affixes, base)
    }
}

/// One marked word's whole contribution: the base form with base
/// metadata, every flag's derivations, then the cross products.
pub open spec fn spec_expand_word(
    m: Map<Seq<char>, WordMetadata>,
    w: MarkedWord,
    affixes: Seq<(char, Expansion)>,
) -> Map<Seq<char>, WordMetadata> {
    let base = empty_metadata();
    let m1 = m.insert(w.word@, base);
    let m2 = expand_flags(m1, w.word@, w.flags@, affixes, base);
    expand_cross_flags(m2, w.word@, w.flags@, w.flags@, affixes, base)
}

/// The whole word list expanded, in order, into the dictionary.
pub open spec fn spec_expand_all(
    m: Map<Seq<char>, WordMetadata>,
    words: Seq<MarkedWord>,
    affixes: Seq<(char, Expansion)>,
) -> Map<Seq<char>, WordMetadata>
    decreases words.len(),
{
    if words.len() == 0 {
        m
    } else {
        spec_expand_all(spec_expand_word(m, words.first(), affixes), words.drop_first(), affixes)
    }
}

/// Applies one replacement step to a word, as executable code.
#[verifier::loop_isolation(false)]
fn apply_replacement(word: &Vec<char>, rep: &Replacement, suffix: bool) -> (r: Option<Vec<char>>)
    ensures
        match r {
            Some(d) => spec_apply_rep(word@, *rep, suffix) == Some(d@),
            None => spec_apply_rep(word@, *rep, suffix) is None,
        },
{
    if !check_condition(&rep.condition, word, suffix) {
        return None;
    }
    let wlen = word.len();
    let rlen = rep.remove.len();
    if rlen > wlen {
        return None;
    }
    let base = if suffix {
        wlen - rlen
    } else {
        0
    };
    let mut i: usize = 0;
    while i < rlen
        invariant
            i <= rlen,
            rlen <= wlen,
            base == (if suffix {
                wlen - rlen
            } else {
                0int
            }),
            forall|k: int| 0 <= k < i ==> word@[base + k] == rep.remove@[k],
        decreases rlen - i,
    {
        if word[base + i] != rep.remove[i] {
            proof {
                if suffix {
                    assert(word@.skip(wlen - rlen as int)[i as int] != rep.remove@[i as int]);
                } else {
                    assert(word@.take(rlen as int)[i as int] != rep.remove@[i as int]);
                }
            }
            return None;
        }
        i = i + 1;
    }
    proof {
        if suffix {
            assert(word@.skip(wlen - rlen as int) =~= rep.remove@);
        } else {
            assert(word@.take(rlen as int) =~= rep.remove@);
        }
    }
    let mut d: Vec<char> = Vec::new();
    if suffix {
        append_range(&mut d, word, 0, wlen - rlen);
        append_range(&mut d, &rep.add, 0, rep.add.len());
        proof {
            assert(word@.subrange(0, wlen - rlen as int) =~= word@.take(wlen - rlen as int));
            assert(rep.add@.subrange(0, rep.add@.len() as int) =~= rep.add@);
        }
    } else {
        append_range(&mut d, &rep.add, 0, rep.add.len());
        append_range(&mut d, word, rlen, wlen);
        proof {
            assert(word@.subrange(rlen as int, wlen as int) =~= word@.skip(rlen as int));
            assert(rep.add@.subrange(0, rep.add@.len() as int) =~= rep.add@);
            assert(Seq::<char>::empty() + rep.add@ =~= rep.add@);
        }
    }
    proof {
        assert(d@ == spec_derived(word@, rep.remove@, rep.add@, suffix));
    }
    Some(d)
}

/// First-match lookup of a flag's rule.
#[verifier::loop_isolation(false)]
fn lookup_flag<'a>(affixes: &'a Vec<(char, Expansion)>, f: char) -> (r: Option<&'a Expansion>)
    ensures
        match r {
            Some(e) => spec_lookup(affixes@, f) == Some(*e),
            None => spec_lookup(affixes@, f) is None,
        },
{
    let n = affixes.len();
    let mut i: usize = 0;
    proof {
        assert(affixes@.skip(0) =~= affixes@);
    }
    while i < n
        invariant
            i <= n,
            spec_lookup(affixes@, f) == spec_lookup(affixes@.skip(i as int), f),
        decreases n - i,
    {
        proof {
            assert(affixes@.skip(i as int).first() == affixes@[i as int]);
            assert(affixes@.skip(i as int).drop_first() =~= affixes@.skip(i + 1));
        }
        if affixes[i].0 == f {
            return Some(&affixes[i].1);
        }
        i = i + 1;
    }
    proof {
        assert(affixes@.skip(n as int).len() == 0);
    }
    None
}

/// Fires the replacement steps of one rule, in declared order.
#[verifier::loop_isolation(false)]
fn run_reps(
    word: &Vec<char>,
    reps: &Vec<Replacement>,
    suffix: bool,
    meta: WordMetadata,
    dest: &mut WordMap,
)
    ensures
        final(dest)@ == expand_reps(old(dest)@, word@, reps@, suffix, meta),
{
    let ghost m0 = dest@;
    let n = reps.len();
    let mut i: usize = 0;
    proof {
        assert(reps@.skip(0) =~= reps@);
    }
    while i < n
        invariant
            i <= n,
            expand_reps(m0, word@, reps@, suffix, meta) == expand_reps(
                dest@,
                word@,
                reps@.skip(i as int),
                suffix,
                meta,
            ),
        decreases n - i,
    {
        proof {
            assert(reps@.skip(i as int).first() == reps@[i as int]);
            assert(reps@.skip(i as int).drop_first() =~= reps@.skip(i + 1));
        }
        match apply_replacement(word, &reps[i], suffix) {
            Some(d) => {
                dest.insert(d, meta);
            },
            None => {},
        }
        i = i + 1;
    }
    proof {
        assert(reps@.skip(n as int).len() == 0);
    }
}

/// Fires every resolvable flag of the word.
#[verifier::loop_isolation(false)]
fn run_flags(
    word: &Vec<char>,
    flags: &Vec<char>,
    affixes: &Vec<(char, Expansion)>,
    base: WordMetadata,
    dest: &mut WordMap,
)
    ensures
        final(dest)@ == expand_flags(old(dest)@, word@, flags@, affixes@, base),
{
    let ghost m0 = dest@;
    let n = flags.len();
    let mut i: usize = 0;
    proof {
        assert(flags@.skip(0) =~= flags@);
    }
    while i < n
        invariant
            i <= n,
            expand_flags(m0, word@, flags@, affixes@, base) == expand_flags(
                dest@,
                word@,
                flags@.skip(i as int),
                affixes@,
                base,
            ),
        decreases n - i,
    {
        proof {
            assert(flags@.skip(i as int).first() == flags@[i as int]);
            assert(flags@.skip(i as int).drop_first() =~= flags@.skip(i + 1));
        }
        match lookup_flag(affixes, flags[i]) {
            Some(e) => {
                let m = base.merge(&e.adds_metadata);
                run_reps(word, &e.replacements, e.suffix, m, dest);
            },
            None => {},
        }
        i = i + 1;
    }
    proof {
        assert(flags@.skip(n as int).len() == 0);
    }
}

/// Fires every cross-product prefix flag on one suffix-derived form.
#[verifier::loop_isolation(false)]
fn run_prefix_cross(
    derived: &Vec<char>,
    flags: &Vec<char>,
    affixes: &Vec<(char, Expansion)>,
    meta: WordMetadata,
    dest: &mut WordMap,
)
    ensures
        final(dest)@ == expand_prefix_cross(old(dest)@, derived@, flags@, affixes@, meta),
{
    let ghost m0 = dest@;
    let n = flags.len();
    let mut i: usize = 0;
    proof {
        assert(flags@.skip(0) =~= flags@);
    }
    while i < n
        invariant
            i <= n,
            expand_prefix_cross(m0, derived@, flags@, affixes@, meta) == expand_prefix_cross(
                dest@,
                derived@,
                flags@.skip(i as int),
                affixes@,
                meta,
            ),
        decreases n - i,
    {
        proof {
            assert(flags@.skip(i as int).first() == flags@[i as int]);
            assert(flags@.skip(i as int).drop_first() =~= flags@.skip(i + 1));
        }
        match lookup_flag(affixes, flags[i]) {
            Some(e) => {
                if !e.suffix && e.cross_product {
                    let m = meta.merge(&e.adds_metadata);
                    run_reps(derived, &e.replacements, false, m, dest);
                }
            },
            None => {},
        }
        i = i + 1;
    }
    proof {
        assert(flags@.skip(n as int).len() == 0);
    }
}

/// The cross-product pass over one suffix rule's replacement steps.
#[verifier::loop_isolation(false)]
fn run_cross_reps(
    word: &Vec<char>,
    reps: &Vec<Replacement>,
    flags: &Vec<char>,
    affixes: &Vec<(char, Expansion)>,
    meta: WordMetadata,
    dest: &mut WordMap,
)
    ensures
        final(dest)@ == expand_cross_reps(old(dest)@, word@, reps@, flags@, affixes@, meta),
{
    let ghost m0 = dest@;
    let n = reps.len();
    let mut i: usize = 0;
    proof {
        assert(reps@.skip(0) =~= reps@);
    }
    while i < n
        invariant
            i <= n,
            expand_cross_reps(m0, word@, reps@, flags@, affixes@, meta) == expand_cross_reps(
                dest@,
                word@,
                reps@.skip(i as int),
                flags@,
                affixes@,
                meta,
            ),
        decreases n - i,
    {
        proof {
            assert(reps@.skip(i as int).first() == reps@[i as int]);
            assert(reps@.skip(i as int).drop_first() =~= reps@.skip(i + 1));
        }
        match apply_replacement(word, &reps[i], true) {
            Some(d) => {
                run_prefix_cross(&d, flags, affixes, meta, dest);
            },
            None => {},
        }
        i = i + 1;
    }
    proof {
        assert(reps@.skip(n as int).len() == 0);
    }
}

/// The cross-product pass over the word's suffix flags.
#[verifier::loop_isolation(false)]
fn run_cross_flags(
    word: &Vec<char>,
    flags: &Vec<char>,
    affixes: &Vec<(char, Expansion)>,
    base: WordMetadata,
    dest: &mut WordMap,
)
    ensures
        final(dest)@ == expand_cross_flags(old(dest)@, word@, flags@, flags@, affixes@, base),
{
    let ghost m0 = dest@;
    let n = flags.len();
    let mut i: usize = 0;
    proof {
        assert(flags@.skip(0) =~= flags@);
    }
    while i < n
        invariant
            i <= n,
            expand_cross_flags(m0, word@, flags@, flags@, affixes@, base) == expand_cross_flags(
                dest@,
                word@,
                flags@.skip(i as int),
                flags@,
                affixes@,
                base,
            ),
        decreases n - i,
    {
        proof {
            assert(flags@.skip(i as int).first() == flags@[i as int]);
            assert(flags@.skip(i as int).drop_first() =~= flags@.skip(i + 1));
        }
        match lookup_flag(affixes, flags[i]) {
            Some(e) => {
                if e.suffix && e.cross_product {
                    let m = base.merge(&e.adds_metadata);
                    run_cross_reps(word, &e.replacements, flags, affixes, m, dest);
                }
            },
            None => {},
        }
        i = i + 1;
    }
    proof {
        assert(flags@.skip(n as int).len() == 0);
    }
}

impl AttributeList {
    /// The rule of a flag, if the table resolves it.
    pub fn get(&self, flag: char) -> (r: Option<&Expansion>)
        ensures
            match r {
                Some(e) => spec_lookup(self.affixes@, flag) == Some(*e),
                None => spec_lookup(self.affixes@, flag) is None,
            },
    {
        lookup_flag(&self.affixes, flag)
    }

    /// Expands every marked word into the dictionary: the base form
    /// with base metadata, each resolvable flag's derivations, and the
    /// cross products of suffix and prefix flags; unresolvable flags
    /// contribute nothing and suppress nothing.
    #[verifier::loop_isolation(false)]
    pub fn expand_marked_words(&self, words: &Vec<MarkedWord>, dest: &mut WordMap)
        ensures
            final(dest)@ == spec_expand_all(old(dest)@, words@, self.affixes@),
    {
        let ghost m0 = dest@;
        let n = words.len();
        let mut i: usize = 0;
        proof {
            assert(words@.skip(0) =~= words@);
        }
        while i < n
            invariant
                i <= n,
                spec_expand_all(m0, words@, self.affixes@) == spec_expand_all(
                    dest@,
                    words@.skip(i as int),
                    self.affixes@,
                ),
            decreases n - i,
        {
            proof {
                assert(words@.skip(i as int).first() == words@[i as int]);
                assert(words@.skip(i as int).drop_first() =~= words@.skip(i + 1));
            }
            let w = &words[i];
            let base_form = copy_range(&w.word, 0, w.word.len());
            proof {
                assert(w.word@.subrange(0, w.word@.len() as int) =~= w.word@);
            }
            dest.insert(base_form, WordMetadata::new_empty());
            run_flags(&w.word, &w.flags, &self.affixes, WordMetadata::new_empty(), dest);
            run_cross_flags(&w.word, &w.flags, &self.affixes, WordMetadata::new_empty(), dest);
            i = i + 1;
        }
        proof {
            assert(words@.skip(n as int).len() == 0);
        }
    }
}

/// The human-readable shape of one replacement step: the condition is
/// still a pattern string.
pub struct HumanReadableReplacement {
    pub remove: Vec<char>,
    pub add: Vec<char>,
    pub condition: Vec<char>,
}

/// The human-readable shape of one affix rule.
pub struct HumanReadableExpansion {
    pub suffix: bool,
    pub cross_product: bool,
    pub replacements: Vec<HumanReadableReplacement>,
    pub adds_metadata: WordMetadata,
}

/// The human-authored rule table, before its conditions have been
/// compiled.
pub struct HumanReadableAttributeList {
    pub affixes: Vec<(char, HumanReadableExpansion)>,
}

/// One compiled replacement step agrees with its human-readable source.
pub open spec fn normalized_rep(h: HumanReadableReplacement, t: Replacement) -> bool {
    &&& t.remove@ == h.remove@
    &&& t.add@ == h.add@
    &&& spec_compile(h.condition@) == Some(atoms_view(t.condition@))
}

/// One compiled rule agrees with its human-readable source.
pub open spec fn normalized_exp(h: HumanReadableExpansion, t: Expansion) -> bool {
    &&& t.suffix == h.suffix
    &&& t.cross_product == h.cross_product
    &&& t.adds_metadata == h.adds_metadata
    &&& t.replacements@.len() == h.replacements@.len()
    &&& forall|j: int|
        0 <= j < h.replacements@.len() ==> normalized_rep(
            h.replacements@[j],
            #[trigger] t.replacements@[j],
        )
}

/// A compiled table agrees with its human-readable source, flag by
/// flag and step by step.
pub open spec fn normalized(
    h: Seq<(char, HumanReadableExpansion)>,
    t: Seq<(char, Expansion)>,
) -> bool {
    &&& t.len() == h.len()
    &&& forall|i: int|
        0 <= i < h.len() ==> (#[trigger] t[i]).0 == h[i].0 && normalized_exp(h[i].1, t[i].1)
}

/// A rule whose condition pattern does not compile.
pub open spec fn has_malformed_condition(h: Seq<(char, HumanReadableExpansion)>) -> bool {
    exists|i: int, j: int|
        0 <= i < h.len() && 0 <= j < (#[trigger] h[i]).1.replacements@.len() && spec_compile(
            (#[trigger] h[i].1.replacements@[j]).condition@,
        ) is None
}

impl HumanReadableAttributeList {
    /// Pre-compiles every condition pattern once, at load time. A
    /// single malformed pattern fails the entire load: a partially
    /// trusted rule table is unacceptable.
    #[verifier::loop_isolation(false)]
    pub fn to_normal(&self) -> (r: Result<AttributeList, Error>)
        ensures
            match r {
                Ok(t) => normalized(self.affixes@, t.affixes@),
                Err(e) => has_malformed_condition(self.affixes@) && e is MalformedCondition,
            },
    {
        let mut out: Vec<(char, Expansion)> = Vec::new();
        let n = self.affixes.len();
        let mut i: usize = 0;
        while i < n
            invariant
                i <= n,
                out@.len() == i,
                forall|k: int|
                    0 <= k < i ==> (#[trigger] out@[k]).0 == self.affixes@[k].0 && normalized_exp(
                        self.affixes@[k].1,
                        out@[k].1,
                    ),
            decreases n - i,
        {
            let flag = self.affixes[i].0;
            let h = &self.affixes[i].1;
            let m = h.replacements.len();
            let mut reps: Vec<Replacement> = Vec::new();
            let mut j: usize = 0;
            while j < m
                invariant
                    j <= m,
                    m == h.replacements@.len(),
                    reps@.len() == j,
                    forall|k: int|
                        0 <= k < j ==> normalized_rep(h.replacements@[k], #[trigger] reps@[k]),
                decreases m - j,
            {
                let hr = &h.replacements[j];
                match compile_condition(&hr.condition) {
                    Some(cond) => {
                        let remove = copy_range(&hr.remove, 0, hr.remove.len());
                        let add = copy_range(&hr.add, 0, hr.add.len());
                        proof {
                            assert(hr.remove@.subrange(0, hr.remove@.len() as int) =~= hr.remove@);
                            assert(hr.add@.subrange(0, hr.add@.len() as int) =~= hr.add@);
                        }
                        let rep = make_replacement(remove, add, cond);
                        reps.push(rep);
                        proof {
                            assert(reps@.drop_last() =~= reps@.take(j as int));
                        }
                    },
                    None => {
                        proof {
                            assert(spec_compile(
                                self.affixes@[i as int].1.replacements@[j as int].condition@,
                            ) is None);
                        }
                        return Err(Error::MalformedCondition { flag });
                    },
                }
                j = j + 1;
            }
            let exp = make_expansion(h.suffix, h.cross_product, reps, h.adds_metadata);
            let entry = (flag, exp);
            out.push(entry);
            proof {
                assert(out@.drop_last() =~= out@.take(i as int));
            }
            i = i + 1;
        }
        Ok(AttributeList { affixes: out })
    }
}

fn make_replacement(remove: Vec<char>, add: Vec<char>, condition: Vec<CondAtom>) -> (r: Replacement)
    ensures
        r.remove@ == remove@,
        r.add@ == add@,
        r.condition@ == condition@,
{
    Replacement { remove, add, condition }
}

fn make_expansion(
    suffix: bool,
    cross_product: bool,
    replacements: Vec<Replacement>,
    adds_metadata: WordMetadata,
) -> (r: Expansion)
    ensures
        r.suffix == suffix,
        r.cross_product == cross_product,
        r.replacements@ == replacements@,
        r.adds_metadata == adds_metadata,
{
    Expansion { suffix, cross_product, replacements, adds_metadata }
}

/// One replacement step has exactly these remove and add characters
/// and this compiled condition.
pub open spec fn step_is(
    r: Replacement,
    remove: Seq<char>,
    add: Seq<char>,
    cond: Seq<AtomModel>,
) -> bool {
    &&& r.remove@ == remove
    &&& r.add@ == add
    &&& atoms_view(r.condition@) == cond
}

/// A negated character class over these characters.
pub open spec fn neg_class(chars: Seq<char>) -> AtomModel {
    AtomModel::Class { negated: true, chars }
}

/// A plain character class over these characters.
pub open spec fn pos_class(chars: Seq<char>) -> AtomModel {
    AtomModel::Class { negated: false, chars }
}

/// One character-class condition atom.
fn class_of(negated: bool, chars: Vec<char>) -> (r: Vec<CondAtom>)
    ensures
        r@.len() == 1,
        r@[0] == (CondAtom::Class { negated, chars }),
        atoms_view(r@) == seq![AtomModel::Class { negated, chars: chars@ }],
{
    let mut v: Vec<CondAtom> = Vec::new();
    v.push(CondAtom::Class { negated, chars });
    proof {
        lemma_atoms_view_index(v@, 0);
        assert(atoms_view(v@) =~= seq![AtomModel::Class { negated, chars: chars@ }]);
    }
    v
}

/// The bundled affix rule table, pre-compiled: `S` pluralizes, `M`
/// forms the possessive, `G` the progressive (tense delta: present),
/// and `D` the past tense (tense delta: past). All four are
/// cross-product suffix rules, their replacement steps pinned below. A
/// bundled table that failed to build would be a packaging defect, so
/// this constructor cannot fail.
#[verifier::rlimit(60)]
pub fn parse_default_attribute_list() -> (r: AttributeList)
    ensures
        r.affixes@.len() == 4,
        r.affixes@[0].0 == 'S' && r.affixes@[0].1.suffix && r.affixes@[0].1.cross_product,
        r.affixes@[0].1.adds_metadata == empty_metadata(),
        r.affixes@[0].1.replacements@.len() == 3,
        step_is(
            r.affixes@[0].1.replacements@[0],
            seq!['y'],
            seq!['i', 'e', 's'],
            seq![neg_class(seq!['a', 'e', 'i', 'o', 'u'])],
        ),
        step_is(
            r.affixes@[0].1.replacements@[1],
            Seq::empty(),
            seq!['s'],
            seq![pos_class(seq!['a', 'e', 'i', 'o', 'u']), AtomModel::Char('y')],
        ),
        step_is(
            r.affixes@[0].1.replacements@[2],
            Seq::empty(),
            seq!['s'],
            seq![neg_class(seq!['s', 'x', 'z', 'h', 'y'])],
        ),
        r.affixes@[1].0 == 'M' && r.affixes@[1].1.suffix && r.affixes@[1].1.cross_product,
        r.affixes@[1].1.adds_metadata == empty_metadata(),
        r.affixes@[1].1.replacements@.len() == 1,
        step_is(
            r.affixes@[1].1.replacements@[0],
            Seq::empty(),
            seq!['\'', 's'],
            seq![AtomModel::Any],
        ),
        r.affixes@[2].0 == 'G' && r.affixes@[2].1.suffix && r.affixes@[2].1.cross_product,
        r.affixes@[2].1.adds_metadata == (WordMetadata {
            kind: None,
            tense: Some(crate::word_metadata::Tense::Present),
        }),
        r.affixes@[2].1.replacements@.len() == 2,
        step_is(
            r.affixes@[2].1.replacements@[0],
            seq!['e'],
            seq!['i', 'n', 'g'],
            seq![AtomModel::Char('e')],
        ),
        step_is(
            r.affixes@[2].1.replacements@[1],
            Seq::empty(),
            seq!['i', 'n', 'g'],
            seq![neg_class(seq!['e'])],
        ),
        r.affixes@[3].0 == 'D' && r.affixes@[3].1.suffix && r.affixes@[3].1.cross_product,
        r.affixes@[3].1.adds_metadata == (WordMetadata {
            kind: None,
            tense: Some(crate::word_metadata::Tense::Past),
        }),
        r.affixes@[3].1.replacements@.len() == 2,
        step_is(
            r.affixes@[3].1.replacements@[0],
            Seq::empty(),
            seq!['d'],
            seq![AtomModel::Char('e')],
        ),
        step_is(
            r.affixes@[3].1.replacements@[1],
            Seq::empty(),
            seq!['e', 'd'],
            seq![neg_class(seq!['e'])],
        ),
{
    let none_meta = WordMetadata::new_empty();

    // S: pluralize. y -> ies after a consonant; otherwise append s
    // except after sibilants and y.
    let mut s_reps: Vec<Replacement> = Vec::new();
    s_reps.push(
        make_replacement(
            vec!['y'],
            vec!['i', 'e', 's'],
            class_of(true, vec!['a', 'e', 'i', 'o', 'u']),
        ),
    );
    proof {
        assert(s_reps@[0].remove@ == seq!['y']);
        assert(s_reps@[0].add@ == seq!['i', 'e', 's']);
        assert(atoms_view(s_reps@[0].condition@) == seq![
            neg_class(seq!['a', 'e', 'i', 'o', 'u']),
        ]);
        assert(step_is(
            s_reps@[0],
            seq!['y'],
            seq!['i', 'e', 's'],
            seq![neg_class(seq!['a', 'e', 'i', 'o', 'u'])],
        ));
    }
    let ghost sv1 = s_reps@;
    let mut ey_cond = class_of(false, vec!['a', 'e', 'i', 'o', 'u']);
    ey_cond.push(CondAtom::Char('y'));
    proof {
        lemma_atoms_view_index(ey_cond@, 0);
        lemma_atoms_view_index(ey_cond@, 1);
        assert(atoms_view(ey_cond@) =~= seq![
            pos_class(seq!['a', 'e', 'i', 'o', 'u']),
            AtomModel::Char('y'),
        ]);
    }
    s_reps.push(make_replacement(Vec::new(), vec!['s'], ey_cond));
    proof {
        assert(s_reps@.drop_last() =~= sv1);
        assert(s_reps@[0] == sv1[0]);
        assert(s_reps@[1].remove@ == Seq::<char>::empty());
        assert(s_reps@[1].add@ == seq!['s']);
        assert(atoms_view(s_reps@[1].condition@) == seq![pos_class(seq!['a', 'e', 'i', 'o', 'u']), AtomModel::Char('y')]);
        assert(step_is(s_reps@[1], Seq::<char>::empty(), seq!['s'], seq![pos_class(seq!['a', 'e', 'i', 'o', 'u']), AtomModel::Char('y')]));
    }
    let ghost sv2 = s_reps@;
    s_reps.push(
        make_replacement(Vec::new(), vec!['s'], class_of(true, vec!['s', 'x', 'z', 'h', 'y'])),
    );
    proof {
        assert(s_reps@.drop_last() =~= sv2);
        assert(s_reps@[0] == sv2[0] && s_reps@[1] == sv2[1]);
        assert(s_reps@[2].remove@ == Seq::<char>::empty());
        assert(s_reps@[2].add@ == seq!['s']);
        assert(atoms_view(s_reps@[2].condition@) == seq![neg_class(seq!['s', 'x', 'z', 'h', 'y'])]);
        assert(step_is(s_reps@[2], Seq::<char>::empty(), seq!['s'], seq![neg_class(seq!['s', 'x', 'z', 'h', 'y'])]));
    }
    let s_exp = make_expansion(true, true, s_reps, none_meta);

    // M: possessive.
    let mut any_cond: Vec<CondAtom> = Vec::new();
    any_cond.push(CondAtom::Any);
    proof {
        lemma_atoms_view_index(any_cond@, 0);
        assert(atoms_view(any_cond@) =~= seq![AtomModel::Any]);
    }
    let mut m_reps: Vec<Replacement> = Vec::new();
    m_reps.push(make_replacement(Vec::new(), vec!['\'', 's'], any_cond));
    proof {
        assert(m_reps@[0].remove@ == Seq::<char>::empty());
        assert(m_reps@[0].add@ == seq!['\'', 's']);
        assert(atoms_view(m_reps@[0].condition@) == seq![AtomModel::Any]);
        assert(step_is(m_reps@[0], Seq::<char>::empty(), seq!['\'', 's'], seq![AtomModel::Any]));
    }
    let m_exp = make_expansion(true, true, m_reps, none_meta);

    // G: progressive. e is dropped before -ing.
    let mut g_reps: Vec<Replacement> = Vec::new();
    let mut e_cond: Vec<CondAtom> = Vec::new();
    e_cond.push(CondAtom::Char('e'));
    proof {
        lemma_atoms_view_index(e_cond@, 0);
        assert(atoms_view(e_cond@) =~= seq![AtomModel::Char('e')]);
    }
    g_reps.push(make_replacement(vec!['e'], vec!['i', 'n', 'g'], e_cond));
    proof {
        assert(g_reps@[0].remove@ == seq!['e']);
        assert(g_reps@[0].add@ == seq!['i', 'n', 'g']);
        assert(atoms_view(g_reps@[0].condition@) == seq![AtomModel::Char('e')]);
        assert(step_is(g_reps@[0], seq!['e'], seq!['i', 'n', 'g'], seq![AtomModel::Char('e')]));
    }
    let ghost gv1 = g_reps@;
    g_reps.push(make_replacement(Vec::new(), vec!['i', 'n', 'g'], class_of(true, vec!['e'])));
    proof {
        assert(g_reps@.drop_last() =~= gv1);
        assert(g_reps@[0] == gv1[0]);
        assert(g_reps@[1].remove@ == Seq::<char>::empty());
        assert(g_reps@[1].add@ == seq!['i', 'n', 'g']);
        assert(atoms_view(g_reps@[1].condition@) == seq![neg_class(seq!['e'])]);
        assert(step_is(g_reps@[1], Seq::<char>::empty(), seq!['i', 'n', 'g'], seq![neg_class(seq!['e'])]));
    }
    let g_meta = WordMetadata { kind: None, tense: Some(crate::word_metadata::Tense::Present) };
    let g_exp = make_expansion(true, true, g_reps, g_meta);

    // D: past tense. Only d is added after e.
    let mut d_reps: Vec<Replacement> = Vec::new();
    let mut e_cond2: Vec<CondAtom> = Vec::new();
    e_cond2.push(CondAtom::Char('e'));
    proof {
        lemma_atoms_view_index(e_cond2@, 0);
        assert(atoms_view(e_cond2@) =~= seq![AtomModel::Char('e')]);
    }
    d_reps.push(make_replacement(Vec::new(), vec!['d'], e_cond2));
    proof {
        assert(d_reps@[0].remove@ == Seq::<char>::empty());
        assert(d_reps@[0].add@ == seq!['d']);
        assert(atoms_view(d_reps@[0].condition@) == seq![AtomModel::Char('e')]);
        assert(step_is(d_reps@[0], Seq::<char>::empty(), seq!['d'], seq![AtomModel::Char('e')]));
    }
    let ghost dv1 = d_reps@;
    d_reps.push(make_replacement(Vec::new(), vec!['e', 'd'], class_of(true, vec!['e'])));
    proof {
        assert(d_reps@.drop_last() =~= dv1);
        assert(d_reps@[0] == dv1[0]);
        assert(d_reps@[1].remove@ == Seq::<char>::empty());
        assert(d_reps@[1].add@ == seq!['e', 'd']);
        assert(atoms_view(d_reps@[1].condition@) == seq![neg_class(seq!['e'])]);
        assert(step_is(d_reps@[1], Seq::<char>::empty(), seq!['e', 'd'], seq![neg_class(seq!['e'])]));
    }
    let d_meta = WordMetadata { kind: None, tense: Some(crate::word_metadata::Tense::Past) };
    let d_exp = make_expansion(true, true, d_reps, d_meta);

    let mut affixes: Vec<(char, Expansion)> = Vec::new();
    affixes.push(('S', s_exp));
    affixes.push(('M', m_exp));
    affixes.push(('G', g_exp));
    affixes.push(('D', d_exp));
    AttributeList { affixes }
}

proof fn lemma_expand_reps_monotone(
    m: Map<Seq<char>, WordMetadata>,
    word: Seq<char>,
    reps: Seq<Replacement>,
    suffix: bool,
    meta: WordMetadata,
    k: Seq<char>,
)
    requires
        m.contains_key(k),
    ensures
        expand_reps(m, word, reps, suffix, meta).contains_key(k),
    decreases reps.len(),
{
    if reps.len() > 0 {
        let m1 = match spec_apply_rep(word, reps.first(), suffix) {
            Some(d) => m.insert(d, meta),
            None => m,
        };
        lemma_expand_reps_monotone(m1, word, reps.drop_first(), suffix, meta, k);
    }
}

proof fn lemma_expand_flags_monotone(
    m: Map<Seq<char>, WordMetadata>,
    word: Seq<char>,
    flags: Seq<char>,
    affixes: Seq<(char, Expansion)>,
    base: WordMetadata,
    k: Seq<char>,
)
    requires
        m.contains_key(k),
    ensures
        expand_flags(m, word, flags, affixes, base).contains_key(k),
    decreases flags.len(),
{
    if flags.len() > 0 {
        let m1 = match spec_lookup(affixes, flags.first()) {
            Some(e) => expand_reps(m, word, e.replacements@, e.suffix, spec_merge(base, e.adds_metadata)),
            None => m,
        };
        match spec_lookup(affixes, flags.first()) {
            Some(e) => {
                lemma_expand_reps_monotone(
                    m,
                    word,
                    e.replacements@,
                    e.suffix,
                    spec_merge(base, e.adds_metadata),
                    k,
                );
            },
            None => {},
        }
        lemma_expand_flags_monotone(m1, word, flags.drop_first(), affixes, base, k);
    }
}

proof fn lemma_prefix_cross_monotone(
    m: Map<Seq<char>, WordMetadata>,
    derived: Seq<char>,
    flags: Seq<char>,
    affixes: Seq<(char, Expansion)>,
    meta: WordMetadata,
    k: Seq<char>,
)
    requires
        m.contains_key(k),
    ensures
        expand_prefix_cross(m, derived, flags, affixes, meta).contains_key(k),
    decreases flags.len(),
{
    if flags.len() > 0 {
        let m1 = match spec_lookup(affixes, flags.first()) {
            Some(e) => if !e.suffix && e.cross_product {
                expand_reps(m, derived, e.replacements@, false, spec_merge(meta, e.adds_metadata))
            } else {
                m
            },
            None => m,
        };
        match spec_lookup(affixes, flags.first()) {
            Some(e) => {
                if !e.suffix && e.cross_product {
                    lemma_expand_reps_monotone(
                        m,
                        derived,
                        e.replacements@,
                        false,
                        spec_merge(meta, e.adds_metadata),
                        k,
                    );
                }
            },
            None => {},
        }
        lemma_prefix_cross_monotone(m1, derived, flags.drop_first(), affixes, meta, k);
    }
}

proof fn lemma_cross_reps_monotone(
    m: Map<Seq<char>, WordMetadata>,
    word: Seq<char>,
    reps: Seq<Replacement>,
    flags: Seq<char>,
    affixes: Seq<(char, Expansion)>,
    meta: WordMetadata,
    k: Seq<char>,
)
    requires
        m.contains_key(k),
    ensures
        expand_cross_reps(m, word, reps, flags, affixes, meta).contains_key(k),
    decreases reps.len(),
{
    if reps.len() > 0 {
        let m1 = match spec_apply_rep(word, reps.first(), true) {
            Some(d) => expand_prefix_cross(m, d, flags, affixes, meta),
            None => m,
        };
        match spec_apply_rep(word, reps.first(), true) {
            Some(d) => {
                lemma_prefix_cross_monotone(m, d, flags, affixes, meta, k);
            },
            None => {},
        }
        lemma_cross_reps_monotone(m1, word, reps.drop_first(), flags, affixes, meta, k);
    }
}

proof fn lemma_cross_flags_monotone(
    m: Map<Seq<char>, WordMetadata>,
    word: Seq<char>,
    outer: Seq<char>,
    flags: Seq<char>,
    affixes: Seq<(char, Expansion)>,
    base: WordMetadata,
    k: Seq<char>,
)
    requires
        m.contains_key(k),
    ensures
        expand_cross_flags(m, word, outer, flags, affixes, base).contains_key(k),
    decreases outer.len(),
{
    if outer.len() > 0 {
        let m1 = match spec_lookup(affixes, outer.first()) {
            Some(e) => if e.suffix && e.cross_product {
                expand_cross_reps(m, word, e.replacements@, flags, affixes, spec_merge(base, e.adds_metadata))
            } else {
                m
            },
            None => m,
        };
        match spec_lookup(affixes, outer.first()) {
            Some(e) => {
                if e.suffix && e.cross_product {
                    lemma_cross_reps_monotone(
                        m,
                        word,
                        e.replacements@,
                        flags,
                        affixes,
                        spec_merge(base, e.adds_metadata),
                        k,
                    );
                }
            },
            None => {},
        }
        lemma_cross_flags_monotone(m1, word, outer.drop_first(), flags, affixes, base, k);
    }
}

/// Expanding one marked word always leaves its base form in the
/// dictionary, whatever its flags resolve to.
pub proof fn lemma_expand_word_keeps_base(
    m: Map<Seq<char>, WordMetadata>,
    w: MarkedWord,
    affixes: Seq<(char, Expansion)>,
)
    ensures
        spec_expand_word(m, w, affixes).contains_key(w.word@),
{
    let base = empty_metadata();
    let m1 = m.insert(w.word@, base);
    let m2 = expand_flags(m1, w.word@, w.flags@, affixes, base);
    lemma_expand_flags_monotone(m1, w.word@, w.flags@, affixes, base, w.word@);
    lemma_cross_flags_monotone(m2, w.word@, w.flags@, w.flags@, affixes, base, w.word@);
}

/// Expansion never removes a dictionary entry's key.
pub proof fn lemma_expand_word_monotone(
    m: Map<Seq<char>, WordMetadata>,
    w: MarkedWord,
    affixes: Seq<(char, Expansion)>,
    k: Seq<char>,
)
    requires
        m.contains_key(k),
    ensures
        spec_expand_word(m, w, affixes).contains_key(k),
{
    let base = empty_metadata();
    let m1 = m.insert(w.word@, base);
    let m2 = expand_flags(m1, w.word@, w.flags@, affixes, base);
    lemma_expand_flags_monotone(m1, w.word@, w.flags@, affixes, base, k);
    lemma_cross_flags_monotone(m2, w.word@, w.flags@, w.flags@, affixes, base, k);
}

/// Every word of the list stands in the expanded dictionary.
pub proof fn lemma_expand_all_keeps_words(
    m: Map<Seq<char>, WordMetadata>,
    words: Seq<MarkedWord>,
    affixes: Seq<(char, Expansion)>,
    i: int,
)
    requires
        0 <= i < words.len(),
    ensures
        spec_expand_all(m, words, affixes).contains_key(words[i].word@),
    decreases words.len(),
{
    let m1 = spec_expand_word(m, words.first(), affixes);
    if i == 0 {
        lemma_expand_word_keeps_base(m, words.first(), affixes);
        lemma_expand_all_monotone(m1, words.drop_first(), affixes, words[0].word@);
    } else {
        assert(words.drop_first()[i - 1] == words[i]);
        lemma_expand_all_keeps_words(m1, words.drop_first(), affixes, i - 1);
    }
}

/// Expanding a word list never removes a dictionary entry's key.
pub proof fn lemma_expand_all_monotone(
    m: Map<Seq<char>, WordMetadata>,
    words: Seq<MarkedWord>,
    affixes: Seq<(char, Expansion)>,
    k: Seq<char>,
)
    requires
        m.contains_key(k),
    ensures
        spec_expand_all(m, words, affixes).contains_key(k),
    decreases words.len(),
{
    if words.len() > 0 {
        lemma_expand_word_monotone(m, words.first(), affixes, k);
        lemma_expand_all_monotone(
            spec_expand_word(m, words.first(), affixes),
            words.drop_first(),
            affixes,
            k,
        );
    }
}

proof fn lemma_expand_flags_skip_unknown(
    m: Map<Seq<char>, WordMetadata>,
    word: Seq<char>,
    flags: Seq<char>,
    affixes: Seq<(char, Expansion)>,
    base: WordMetadata,
    f: char,
)
    requires
        spec_lookup(affixes, f) is None,
    ensures
        expand_flags(m, word, flags.push(f), affixes, base) == expand_flags(
            m,
            word,
            flags,
            affixes,
            base,
        ),
    decreases flags.len(),
{
    let p = flags.push(f);
    if flags.len() == 0 {
        assert(p.first() == f);
        assert(p.drop_first() =~= Seq::<char>::empty());
        assert(expand_flags(m, word, p, affixes, base) == expand_flags(
            m,
            word,
            p.drop_first(),
            affixes,
            base,
        ));
    } else {
        assert(p.first() == flags.first());
        assert(p.drop_first() =~= flags.drop_first().push(f));
        let m1 = match spec_lookup(affixes, flags.first()) {
            Some(e) => expand_reps(m, word, e.replacements@, e.suffix, spec_merge(base, e.adds_metadata)),
            None => m,
        };
        assert(expand_flags(m, word, p, affixes, base) == expand_flags(
            m1,
            word,
            p.drop_first(),
            affixes,
            base,
        ));
        assert(expand_flags(m, word, flags, affixes, base) == expand_flags(
            m1,
            word,
            flags.drop_first(),
            affixes,
            base,
        ));
        lemma_expand_flags_skip_unknown(m1, word, flags.drop_first(), affixes, base, f);
    }
}

proof fn lemma_prefix_cross_skip_unknown(
    m: Map<Seq<char>, WordMetadata>,
    derived: Seq<char>,
    flags: Seq<char>,
    affixes: Seq<(char, Expansion)>,
    meta: WordMetadata,
    f: char,
)
    requires
        spec_lookup(affixes, f) is None,
    ensures
        expand_prefix_cross(m, derived, flags.push(f), affixes, meta) == expand_prefix_cross(
            m,
            derived,
            flags,
            affixes,
            meta,
        ),
    decreases flags.len(),
{
    let p = flags.push(f);
    if flags.len() == 0 {
        assert(p.first() == f);
        assert(p.drop_first() =~= Seq::<char>::empty());
        assert(expand_prefix_cross(m, derived, p, affixes, meta) == expand_prefix_cross(
            m,
            derived,
            p.drop_first(),
            affixes,
            meta,
        ));
    } else {
        assert(p.first() == flags.first());
        assert(p.drop_first() =~= flags.drop_first().push(f));
        let m1 = match spec_lookup(affixes, flags.first()) {
            Some(e) => if !e.suffix && e.cross_product {
                expand_reps(m, derived, e.replacements@, false, spec_merge(meta, e.adds_metadata))
            } else {
                m
            },
            None => m,
        };
        assert(expand_prefix_cross(m, derived, p, affixes, meta) == expand_prefix_cross(
            m1,
            derived,
            p.drop_first(),
            affixes,
            meta,
        ));
        assert(expand_prefix_cross(m, derived, flags, affixes, meta) == expand_prefix_cross(
            m1,
            derived,
            flags.drop_first(),
            affixes,
            meta,
        ));
        lemma_prefix_cross_skip_unknown(m1, derived, flags.drop_first(), affixes, meta, f);
    }
}

proof fn lemma_cross_reps_skip_unknown(
    m: Map<Seq<char>, WordMetadata>,
    word: Seq<char>,
    reps: Seq<Replacement>,
    flags: Seq<char>,
    affixes: Seq<(char, Expansion)>,
    meta: WordMetadata,
    f: char,
)
    requires
        spec_lookup(affixes, f) is None,
    ensures
        expand_cross_reps(m, word, reps, flags.push(f), affixes, meta) == expand_cross_reps(
            m,
            word,
            reps,
            flags,
            affixes,
            meta,
        ),
    decreases reps.len(),
{
    if reps.len() > 0 {
        match spec_apply_rep(word, reps.first(), true) {
            Some(d) => {
                lemma_prefix_cross_skip_unknown(m, d, flags, affixes, meta, f);
            },
            None => {},
        }
        let m1 = match spec_apply_rep(word, reps.first(), true) {
            Some(d) => expand_prefix_cross(m, d, flags, affixes, meta),
            None => m,
        };
        lemma_cross_reps_skip_unknown(m1, word, reps.drop_first(), flags, affixes, meta, f);
    }
}

proof fn lemma_cross_flags_skip_unknown(
    m: Map<Seq<char>, WordMetadata>,
    word: Seq<char>,
    outer: Seq<char>,
    flags: Seq<char>,
    affixes: Seq<(char, Expansion)>,
    base: WordMetadata,
    f: char,
)
    requires
        spec_lookup(affixes, f) is None,
    ensures
        expand_cross_flags(m, word, outer.push(f), flags.push(f), affixes, base)
            == expand_cross_flags(m, word, outer, flags, affixes, base),
    decreases outer.len(),
{
    let p = outer.push(f);
    let pf = flags.push(f);
    if outer.len() == 0 {
        assert(p.first() == f);
        assert(p.drop_first() =~= Seq::<char>::empty());
        assert(expand_cross_flags(m, word, p, pf, affixes, base) == expand_cross_flags(
            m,
            word,
            p.drop_first(),
            pf,
            affixes,
            base,
        ));
    } else {
        assert(p.first() == outer.first());
        assert(p.drop_first() =~= outer.drop_first().push(f));
        match spec_lookup(affixes, outer.first()) {
            Some(e) => {
                if e.suffix && e.cross_product {
                    lemma_cross_reps_skip_unknown(
                        m,
                        word,
                        e.replacements@,
                        flags,
                        affixes,
                        spec_merge(base, e.adds_metadata),
                        f,
                    );
                }
            },
            None => {},
        }
        let m1 = match spec_lookup(affixes, outer.first()) {
            Some(e) => if e.suffix && e.cross_product {
                expand_cross_reps(m, word, e.replacements@, flags, affixes, spec_merge(base, e.adds_metadata))
            } else {
                m
            },
            None => m,
        };
        assert(expand_cross_flags(m, word, p, pf, affixes, base) == expand_cross_flags(
            m1,
            word,
            p.drop_first(),
            pf,
            affixes,
            base,
        ));
        assert(expand_cross_flags(m, word, outer, flags, affixes, base) == expand_cross_flags(
            m1,
            word,
            outer.drop_first(),
            flags,
            affixes,
            base,
        ));
        lemma_cross_flags_skip_unknown(m1, word, outer.drop_first(), flags, affixes, base, f);
    }
}

/// Unknown-flag safety: a marked word carrying a flag the table does
/// not resolve expands exactly as the same word without that flag, and
/// its base form is still entered. The two words here are the same
/// base with and without the unresolvable flag appended.
pub proof fn lemma_unknown_flag_safe(
    m: Map<Seq<char>, WordMetadata>,
    with_flag: MarkedWord,
    without_flag: MarkedWord,
    f: char,
    affixes: Seq<(char, Expansion)>,
)
    requires
        spec_lookup(affixes, f) is None,
        with_flag.word@ == without_flag.word@,
        with_flag.flags@ == without_flag.flags@.push(f),
    ensures
        spec_expand_word(m, with_flag, affixes) == spec_expand_word(m, without_flag, affixes),
        spec_expand_word(m, with_flag, affixes).contains_key(with_flag.word@),
{
    let base = empty_metadata();
    let m1 = m.insert(with_flag.word@, base);
    lemma_expand_flags_skip_unknown(m1, with_flag.word@, without_flag.flags@, affixes, base, f);
    let m2 = expand_flags(m1, with_flag.word@, without_flag.flags@, affixes, base);
    lemma_cross_flags_skip_unknown(
        m2,
        with_flag.word@,
        without_flag.flags@,
        without_flag.flags@,
        affixes,
        base,
        f,
    );
    lemma_expand_word_keeps_base(m, with_flag, affixes);
}

/// The dictionary after entering each pair in order.
spec fn apply_ins(
    m: Map<Seq<char>, WordMetadata>,
    s: Seq<(Seq<char>, WordMetadata)>,
) -> Map<Seq<char>, WordMetadata>
    decreases s.len(),
{
    if s.len() == 0 {
        m
    } else {
        apply_ins(m.insert(s.first().0, s.first().1), s.drop_first())
    }
}

proof fn lemma_apply_ins_concat(
    m: Map<Seq<char>, WordMetadata>,
    a: Seq<(Seq<char>, WordMetadata)>,
    b: Seq<(Seq<char>, WordMetadata)>,
)
    ensures
        apply_ins(m, a + b) == apply_ins(apply_ins(m, a), b),
    decreases a.len(),
{
    if a.len() == 0 {
        assert(a + b =~= b);
    } else {
        assert((a + b).first() == a.first());
        assert((a + b).drop_first() =~= a.drop_first() + b);
        lemma_apply_ins_concat(m.insert(a.first().0, a.first().1), a.drop_first(), b);
    }
}

/// The pairs one rule's replacement steps enter, in order.
spec fn ins_reps(
    word: Seq<char>,
    reps: Seq<Replacement>,
    suffix: bool,
    meta: WordMetadata,
) -> Seq<(Seq<char>, WordMetadata)>
    decreases reps.len(),
{
    if reps.len() == 0 {
        Seq::empty()
    } else {
        (match spec_apply_rep(word, reps.first(), suffix) {
            Some(d) => seq![(d, meta)],
            None => Seq::empty(),
        }) + ins_reps(word, reps.drop_first(), suffix, meta)
    }
}

proof fn lemma_reps_ins(
    m: Map<Seq<char>, WordMetadata>,
    word: Seq<char>,
    reps: Seq<Replacement>,
    suffix: bool,
    meta: WordMetadata,
)
    ensures
        expand_reps(m, word, reps, suffix, meta) == apply_ins(
            m,
            ins_reps(word, reps, suffix, meta),
        ),
    decreases reps.len(),
{
    if reps.len() > 0 {
        let head = match spec_apply_rep(word, reps.first(), suffix) {
            Some(d) => seq![(d, meta)],
            None => Seq::<(Seq<char>, WordMetadata)>::empty(),
        };
        let m1 = match spec_apply_rep(word, reps.first(), suffix) {
            Some(d) => m.insert(d, meta),
            None => m,
        };
        match spec_apply_rep(word, reps.first(), suffix) {
            Some(d) => {
                assert(head.drop_first() =~= Seq::<(Seq<char>, WordMetadata)>::empty());
                assert(apply_ins(m.insert(d, meta), head.drop_first()) == m.insert(d, meta));
                assert(apply_ins(m, head) == m1);
            },
            None => {
                assert(apply_ins(m, head) == m1);
            },
        }
        lemma_apply_ins_concat(m, head, ins_reps(word, reps.drop_first(), suffix, meta));
        lemma_reps_ins(m1, word, reps.drop_first(), suffix, meta);
    }
}

/// The pairs the per-flag pass enters, in order.
spec fn ins_flags(
    word: Seq<char>,
    flags: Seq<char>,
    affixes: Seq<(char, Expansion)>,
    base: WordMetadata,
) -> Seq<(Seq<char>, WordMetadata)>
    decreases flags.len(),
{
    if flags.len() == 0 {
        Seq::empty()
    } else {
        (match spec_lookup(affixes, flags.first()) {
            Some(e) => ins_reps(word, e.replacements@, e.suffix, spec_merge(base, e.adds_metadata)),
            None => Seq::empty(),
        }) + ins_flags(word, flags.drop_first(), affixes, base)
    }
}

proof fn lemma_flags_ins(
    m: Map<Seq<char>, WordMetadata>,
    word: Seq<char>,
    flags: Seq<char>,
    affixes: Seq<(char, Expansion)>,
    base: WordMetadata,
)
    ensures
        expand_flags(m, word, flags, affixes, base) == apply_ins(
            m,
            ins_flags(word, flags, affixes, base),
        ),
    decreases flags.len(),
{
    if flags.len() > 0 {
        let head = match spec_lookup(affixes, flags.first()) {
            Some(e) => ins_reps(word, e.replacements@, e.suffix, spec_merge(base, e.adds_metadata)),
            None => Seq::<(Seq<char>, WordMetadata)>::empty(),
        };
        let m1 = match spec_lookup(affixes, flags.first()) {
            Some(e) => expand_reps(m, word, e.replacements@, e.suffix, spec_merge(base, e.adds_metadata)),
            None => m,
        };
        match spec_lookup(affixes, flags.first()) {
            Some(e) => {
                lemma_reps_ins(m, word, e.replacements@, e.suffix, spec_merge(base, e.adds_metadata));
            },
            None => {},
        }
        assert(apply_ins(m, head) == m1);
        lemma_apply_ins_concat(m, head, ins_flags(word, flags.drop_first(), affixes, base));
        lemma_flags_ins(m1, word, flags.drop_first(), affixes, base);
    }
}

/// The pairs the prefix side of the cross-product pass enters.
spec fn ins_prefix_cross(
    derived: Seq<char>,
    flags: Seq<char>,
    affixes: Seq<(char, Expansion)>,
    meta: WordMetadata,
) -> Seq<(Seq<char>, WordMetadata)>
    decreases flags.len(),
{
    if flags.len() == 0 {
        Seq::empty()
    } else {
        (match spec_lookup(affixes, flags.first()) {
            Some(e) => if !e.suffix && e.cross_product {
                ins_reps(derived, e.replacements@, false, spec_merge(meta, e.adds_metadata))
            } else {
                Seq::empty()
            },
            None => Seq::empty(),
        }) + ins_prefix_cross(derived, flags.drop_first(), affixes, meta)
    }
}

proof fn lemma_prefix_cross_ins(
    m: Map<Seq<char>, WordMetadata>,
    derived: Seq<char>,
    flags: Seq<char>,
    affixes: Seq<(char, Expansion)>,
    meta: WordMetadata,
)
    ensures
        expand_prefix_cross(m, derived, flags, affixes, meta) == apply_ins(
            m,
            ins_prefix_cross(derived, flags, affixes, meta),
        ),
    decreases flags.len(),
{
    if flags.len() > 0 {
        let head = match spec_lookup(affixes, flags.first()) {
            Some(e) => if !e.suffix && e.cross_product {
                ins_reps(derived, e.replacements@, false, spec_merge(meta, e.adds_metadata))
            } else {
                Seq::<(Seq<char>, WordMetadata)>::empty()
            },
            None => Seq::<(Seq<char>, WordMetadata)>::empty(),
        };
        let m1 = match spec_lookup(affixes, flags.first()) {
            Some(e) => if !e.suffix && e.cross_product {
                expand_reps(m, derived, e.replacements@, false, spec_merge(meta, e.adds_metadata))
            } else {
                m
            },
            None => m,
        };
        match spec_lookup(affixes, flags.first()) {
            Some(e) => {
                if !e.suffix && e.cross_product {
                    lemma_reps_ins(
                        m,
                        derived,
                        e.replacements@,
                        false,
                        spec_merge(meta, e.adds_metadata),
                    );
                }
            },
            None => {},
        }
        assert(apply_ins(m, head) == m1);
        lemma_apply_ins_concat(m, head, ins_prefix_cross(derived, flags.drop_first(), affixes, meta));
        lemma_prefix_cross_ins(m1, derived, flags.drop_first(), affixes, meta);
    }
}

/// The pairs the cross-product pass enters for one suffix rule.
spec fn ins_cross_reps(
    word: Seq<char>,
    reps: Seq<Replacement>,
    flags: Seq<char>,
    affixes: Seq<(char, Expansion)>,
    meta: WordMetadata,
) -> Seq<(Seq<char>, WordMetadata)>
    decreases reps.len(),
{
    if reps.len() == 0 {
        Seq::empty()
    } else {
        (match spec_apply_rep(word, reps.first(), true) {
            Some(d) => ins_prefix_cross(d, flags, affixes, meta),
            None => Seq::empty(),
        }) + ins_cross_reps(word, reps.drop_first(), flags, affixes, meta)
    }
}

proof fn lemma_cross_reps_ins(
    m: Map<Seq<char>, WordMetadata>,
    word: Seq<char>,
    reps: Seq<Replacement>,
    flags: Seq<char>,
    affixes: Seq<(char, Expansion)>,
    meta: WordMetadata,
)
    ensures
        expand_cross_reps(m, word, reps, flags, affixes, meta) == apply_ins(
            m,
            ins_cross_reps(word, reps, flags, affixes, meta),
        ),
    decreases reps.len(),
{
    if reps.len() > 0 {
        let head = match spec_apply_rep(word, reps.first(), true) {
            Some(d) => ins_prefix_cross(d, flags, affixes, meta),
            None => Seq::<(Seq<char>, WordMetadata)>::empty(),
        };
        let m1 = match spec_apply_rep(word, reps.first(), true) {
            Some(d) => expand_prefix_cross(m, d, flags, affixes, meta),
            None => m,
        };
        match spec_apply_rep(word, reps.first(), true) {
            Some(d) => {
                lemma_prefix_cross_ins(m, d, flags, affixes, meta);
            },
            None => {},
        }
        assert(apply_ins(m, head) == m1);
        lemma_apply_ins_concat(m, head, ins_cross_reps(word, reps.drop_first(), flags, affixes, meta));
        lemma_cross_reps_ins(m1, word, reps.drop_first(), flags, affixes, meta);
    }
}

/// The pairs the whole cross-product pass enters.
spec fn ins_cross_flags(
    word: Seq<char>,
    outer: Seq<char>,
    flags: Seq<char>,
    affixes: Seq<(char, Expansion)>,
    base: WordMetadata,
) -> Seq<(Seq<char>, WordMetadata)>
    decreases outer.len(),
{
    if outer.len() == 0 {
        Seq::empty()
    } else {
        (match spec_lookup(affixes, outer.first()) {
            Some(e) => if e.suffix && e.cross_product {
                ins_cross_reps(word, e.replacements@, flags, affixes, spec_merge(base, e.adds_metadata))
            } else {
                Seq::empty()
            },
            None => Seq::empty(),
        }) + ins_cross_flags(word, outer.drop_first(), flags, affixes, base)
    }
}

proof fn lemma_cross_flags_ins(
    m: Map<Seq<char>, WordMetadata>,
    word: Seq<char>,
    outer: Seq<char>,
    flags: Seq<char>,
    affixes: Seq<(char, Expansion)>,
    base: WordMetadata,
)
    ensures
        expand_cross_flags(m, word, outer, flags, affixes, base) == apply_ins(
            m,
            ins_cross_flags(word, outer, flags, affixes, base),
        ),
    decreases outer.len(),
{
    if outer.len() > 0 {
        let head = match spec_lookup(affixes, outer.first()) {
            Some(e) => if e.suffix && e.cross_product {
                ins_cross_reps(word, e.replacements@, flags, affixes, spec_merge(base, e.adds_metadata))
            } else {
                Seq::<(Seq<char>, WordMetadata)>::empty()
            },
            None => Seq::<(Seq<char>, WordMetadata)>::empty(),
        };
        let m1 = match spec_lookup(affixes, outer.first()) {
            Some(e) => if e.suffix && e.cross_product {
                expand_cross_reps(m, word, e.replacements@, flags, affixes, spec_merge(base, e.adds_metadata))
            } else {
                m
            },
            None => m,
        };
        match spec_lookup(affixes, outer.first()) {
            Some(e) => {
                if e.suffix && e.cross_product {
                    lemma_cross_reps_ins(
                        m,
                        word,
                        e.replacements@,
                        flags,
                        affixes,
                        spec_merge(base, e.adds_metadata),
                    );
                }
            },
            None => {},
        }
        assert(apply_ins(m, head) == m1);
        lemma_apply_ins_concat(
            m,
            head,
            ins_cross_flags(word, outer.drop_first(), flags, affixes, base),
        );
        lemma_cross_flags_ins(m1, word, outer.drop_first(), flags, affixes, base);
    }
}

/// The pairs one marked word enters, in order.
spec fn ins_word(w: MarkedWord, affixes: Seq<(char, Expansion)>) -> Seq<
    (Seq<char>, WordMetadata),
> {
    let base = empty_metadata();
    seq![(w.word@, base)] + ins_flags(w.word@, w.flags@, affixes, base) + ins_cross_flags(
        w.word@,
        w.flags@,
        w.flags@,
        affixes,
        base,
    )
}

proof fn lemma_word_ins(
    m: Map<Seq<char>, WordMetadata>,
    w: MarkedWord,
    affixes: Seq<(char, Expansion)>,
)
    ensures
        spec_expand_word(m, w, affixes) == apply_ins(m, ins_word(w, affixes)),
{
    let base = empty_metadata();
    let h = seq![(w.word@, base)];
    let a = ins_flags(w.word@, w.flags@, affixes, base);
    let b = ins_cross_flags(w.word@, w.flags@, w.flags@, affixes, base);
    assert(h.drop_first() =~= Seq::<(Seq<char>, WordMetadata)>::empty());
    assert(apply_ins(m.insert(w.word@, base), h.drop_first()) == m.insert(w.word@, base));
    assert(apply_ins(m, h) == m.insert(w.word@, base));
    lemma_apply_ins_concat(m, h, a);
    lemma_apply_ins_concat(m, h + a, b);
    assert((h + a) + b =~= ins_word(w, affixes));
    lemma_flags_ins(m.insert(w.word@, base), w.word@, w.flags@, affixes, base);
    lemma_cross_flags_ins(
        expand_flags(m.insert(w.word@, base), w.word@, w.flags@, affixes, base),
        w.word@,
        w.flags@,
        w.flags@,
        affixes,
        base,
    );
}

/// The pairs the whole word list enters, in order.
spec fn ins_all(words: Seq<MarkedWord>, affixes: Seq<(char, Expansion)>) -> Seq<
    (Seq<char>, WordMetadata),
>
    decreases words.len(),
{
    if words.len() == 0 {
        Seq::empty()
    } else {
        ins_word(words.first(), affixes) + ins_all(words.drop_first(), affixes)
    }
}

proof fn lemma_all_ins(
    m: Map<Seq<char>, WordMetadata>,
    words: Seq<MarkedWord>,
    affixes: Seq<(char, Expansion)>,
)
    ensures
        spec_expand_all(m, words, affixes) == apply_ins(m, ins_all(words, affixes)),
    decreases words.len(),
{
    if words.len() > 0 {
        lemma_word_ins(m, words.first(), affixes);
        lemma_apply_ins_concat(
            m,
            ins_word(words.first(), affixes),
            ins_all(words.drop_first(), affixes),
        );
        lemma_all_ins(spec_expand_word(m, words.first(), affixes), words.drop_first(), affixes);
    }
}

/// The value of the latest pair for a key, if any.
spec fn last_val(s: Seq<(Seq<char>, WordMetadata)>, k: Seq<char>) -> Option<WordMetadata>
    decreases s.len(),
{
    if s.len() == 0 {
        None
    } else {
        match last_val(s.drop_first(), k) {
            Some(v) => Some(v),
            None => if s.first().0 == k {
                Some(s.first().1)
            } else {
                None
            },
        }
    }
}

proof fn lemma_apply_ins_key(
    m: Map<Seq<char>, WordMetadata>,
    s: Seq<(Seq<char>, WordMetadata)>,
    k: Seq<char>,
)
    ensures
        apply_ins(m, s).contains_key(k) == (m.contains_key(k) || last_val(s, k) is Some),
        apply_ins(m, s).contains_key(k) ==> apply_ins(m, s)[k] == (match last_val(s, k) {
            Some(v) => v,
            None => m[k],
        }),
    decreases s.len(),
{
    if s.len() > 0 {
        lemma_apply_ins_key(m.insert(s.first().0, s.first().1), s.drop_first(), k);
    }
}

proof fn lemma_apply_ins_twice(m: Map<Seq<char>, WordMetadata>, s: Seq<(Seq<char>, WordMetadata)>)
    ensures
        apply_ins(apply_ins(m, s), s) == apply_ins(m, s),
{
    let once = apply_ins(m, s);
    let twice = apply_ins(once, s);
    assert forall|k: Seq<char>| #[trigger] once.contains_key(k) implies twice.contains_key(k)
        && twice[k] == once[k] by {
        lemma_apply_ins_key(m, s, k);
        lemma_apply_ins_key(once, s, k);
    }
    assert forall|k: Seq<char>| #[trigger] twice.contains_key(k) implies once.contains_key(k) by {
        lemma_apply_ins_key(m, s, k);
        lemma_apply_ins_key(once, s, k);
    }
    assert(twice =~= once);
}

/// Idempotence: expanding the same word list with the same table a
/// second time leaves the dictionary exactly as it was, because each
/// pass enters the same pairs in the same order.
pub proof fn lemma_expansion_idempotent(
    m: Map<Seq<char>, WordMetadata>,
    words: Seq<MarkedWord>,
    affixes: Seq<(char, Expansion)>,
)
    ensures
        spec_expand_all(spec_expand_all(m, words, affixes), words, affixes) == spec_expand_all(
            m,
            words,
            affixes,
        ),
{
    let once = spec_expand_all(m, words, affixes);
    lemma_all_ins(m, words, affixes);
    lemma_all_ins(once, words, affixes);
    lemma_apply_ins_twice(m, ins_all(words, affixes));
}

} // verus!
