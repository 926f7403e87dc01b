//! Combinations: named macros over sequences and other combinations.
//!
//! A combination's value is a whitespace-separated list of command tokens.
//! Resolving a command looks its name up among the combinations first and
//! recursively expands the stored token list, repeating it as the command
//! asks; a name not stored there is delegated to the sequence store.

use vstd::prelude::*;

use crate::chars::{char_is_space, is_whitespace_char};
use crate::command::{
    command_spec, name_error_kind, times_count_ok, valid_name_spec, Command, CommandView, Times,
};
use crate::content::rendered;
use crate::error::{ATResult, ATVecResult, ErrAutoType, ErrKind, ErrType};
use crate::sequence::Sequences;
use crate::store::{
    assoc_contains, assoc_keys, assoc_lookup, lemma_assoc_lookup_index, pairs_get, pairs_keys,
    pairs_view, sorted_insert, sorted_names,
};
use crate::text::{chars_string, str_chars};

verus! {

/// The whitespace splitter's state: complete tokens, and the run of
/// non-space characters currently open.
pub struct SplitState {
    pub tokens: Seq<Seq<char>>,
    pub cur: Seq<char>,
}

/// One splitter step: a space closes the open token, if any; any other
/// character extends it.
pub open spec fn split_step(st: SplitState, c: char) -> SplitState {
    if char_is_space(c) {
        if st.cur.len() > 0 {
            SplitState { tokens: st.tokens.push(st.cur), cur: Seq::empty() }
        } else {
            st
        }
    } else {
        SplitState { tokens: st.tokens, cur: st.cur.push(c) }
    }
}

/// The splitter's state after reading all of `s`.
pub open spec fn split_scan(s: Seq<char>) -> SplitState
    decreases s.len(),
{
    if s.len() == 0 {
        SplitState { tokens: Seq::empty(), cur: Seq::empty() }
    } else {
        split_step(split_scan(s.drop_last()), s.last())
    }
}

/// The maximal whitespace-free runs of `s`, in order.
pub open spec fn split_ws(s: Seq<char>) -> Seq<Seq<char>> {
    let st = split_scan(s);
    if st.cur.len() > 0 {
        st.tokens.push(st.cur)
    } else {
        st.tokens
    }
}

/// Parse a list of tokens as commands, keeping the leftmost error.
pub open spec fn parse_tokens(tokens: Seq<Seq<char>>) -> Result<Seq<CommandView>, ErrKind>
    decreases tokens.len(),
{
    if tokens.len() == 0 {
        Ok(Seq::empty())
    } else {
        match parse_tokens(tokens.drop_last()) {
            Ok(cs) => match command_spec(tokens.last()) {
                Ok(cv) => Ok(cs.push(cv)),
                Err(k) => Err(k),
            },
            Err(k) => Err(k),
        }
    }
}

/// What decomposing a combination value yields: its whitespace-separated
/// tokens parsed as commands, or the first token's parse error.
pub open spec fn decompose_spec(s: Seq<char>) -> Result<Seq<CommandView>, ErrKind> {
    parse_tokens(split_ws(s))
}

/// The mathematical values of a list of commands.
pub open spec fn cmd_views(cmds: Seq<Command>) -> Seq<CommandView> {
    cmds.map_values(|c: Command| c@)
}

/// A parse failure of a token read from a prefix of `s` is the failure of
/// the whole decomposition: later characters only add tokens behind it.
pub proof fn lemma_decompose_err_persists(s: Seq<char>, i: int)
    requires
        0 <= i <= s.len(),
        parse_tokens(split_scan(s.take(i)).tokens) is Err,
    ensures
        decompose_spec(s) == parse_tokens(split_scan(s.take(i)).tokens),
    decreases s.len() - i,
{
    let st = split_scan(s.take(i));
    if i < s.len() {
        assert(s.take(i + 1).drop_last() =~= s.take(i));
        assert(s.take(i + 1).last() == s[i]);
        let st2 = split_scan(s.take(i + 1));
        assert(st2 == split_step(st, s[i]));
        if char_is_space(s[i]) && st.cur.len() > 0 {
            assert(st2.tokens.drop_last() =~= st.tokens);
        }
        lemma_decompose_err_persists(s, i + 1);
    } else {
        assert(s.take(i) =~= s);
        if st.cur.len() > 0 {
            assert(st.tokens.push(st.cur).drop_last() =~= st.tokens);
        }
    }
}

/// The mathematical value of the resolver: its own entries and the
/// sequence store's.
pub struct CombinationsView {
    pub combinations: Seq<(Seq<char>, Seq<char>)>,
    pub sequences: Seq<(Seq<char>, Seq<char>)>,
}

/// Combinations of existing [`Sequences`].
#[derive(Debug)]
pub struct Combinations {
    pub combinations: Vec<(String, String)>,
    pub sequences: Sequences,
}

impl View for Combinations {
    type V = CombinationsView;

    open spec fn view(&self) -> CombinationsView {
        CombinationsView { combinations: pairs_view(self.combinations@), sequences: self.sequences@ }
    }
}

/// Every command of the decomposed `value` names a stored sequence.
pub open spec fn entry_resolvable(seqs: Seq<(Seq<char>, Seq<char>)>, value: Seq<char>) -> bool {
    match decompose_spec(value) {
        Ok(cmds) => forall|j: int|
            0 <= j < cmds.len() ==> assoc_contains(seqs, (#[trigger] cmds[j]).name),
        Err(_) => false,
    }
}

/// Every command of the decomposed `value` names something one of the two
/// stores defines; a token naming another combination passes, since only
/// names held by neither store are unknown to whole-store validation.
pub open spec fn entry_names_known(c: CombinationsView, value: Seq<char>) -> bool {
    match decompose_spec(value) {
        Ok(cmds) => forall|j: int| 0 <= j < cmds.len() ==> name_defined(c, (#[trigger] cmds[j]).name),
        Err(_) => false,
    }
}

/// Every combination value decomposes and references stored sequences only.
/// Stronger than [`entry_names_known`]: it rules nested combinations out.
/// Such a flat store makes every defined name [`resolvable`] outright; for
/// stores that nest combinations, [`resolvable`] itself is the condition
/// under which resolution is proved to succeed.
pub open spec fn valid_config(c: CombinationsView) -> bool {
    forall|i: int|
        0 <= i < c.combinations.len() ==> entry_resolvable(
            c.sequences,
            (#[trigger] c.combinations[i]).1,
        )
}

/// No name is stored both as a combination and as a sequence.
pub open spec fn stores_disjoint(c: CombinationsView) -> bool {
    forall|i: int|
        0 <= i < c.combinations.len() ==> !assoc_contains(
            c.sequences,
            (#[trigger] c.combinations[i]).0,
        )
}

/// The leftmost command of `cmds` whose name is no stored sequence.
pub open spec fn first_missing(
    seqs: Seq<(Seq<char>, Seq<char>)>,
    cmds: Seq<CommandView>,
) -> Option<Seq<char>>
    decreases cmds.len(),
{
    if cmds.len() == 0 {
        None
    } else if !assoc_contains(seqs, cmds[0].name) {
        Some(cmds[0].name)
    } else {
        first_missing(seqs, cmds.drop_first())
    }
}

/// Why inserting `key` with `value` fails, if it does: an invalid key, a
/// key held by either store, a value that does not decompose, or a
/// reference to an unknown sequence — the first that applies.
pub open spec fn comb_insert_err(
    c: CombinationsView,
    key: Seq<char>,
    value: Seq<char>,
) -> Option<ErrKind> {
    if !valid_name_spec(key) {
        Some(name_error_kind(key))
    } else if assoc_contains(c.sequences, key) {
        Some(ErrKind::KeyIsInSequences(key))
    } else if assoc_contains(c.combinations, key) {
        Some(ErrKind::KeyIsInCombinations(key))
    } else {
        match decompose_spec(value) {
            Ok(cmds) => match first_missing(c.sequences, cmds) {
                Some(n) => Some(ErrKind::SequenceNotExist(n)),
                None => None,
            },
            Err(k) => Some(k),
        }
    }
}

/// What building a resolver over `seqs` from a list of pairs, inserting
/// left to right, yields: the entries in order, or the first insertion
/// error.
pub open spec fn build_combs(
    seqs: Seq<(Seq<char>, Seq<char>)>,
    pairs: Seq<(Seq<char>, Seq<char>)>,
) -> Result<Seq<(Seq<char>, Seq<char>)>, ErrKind>
    decreases pairs.len(),
{
    if pairs.len() == 0 {
        Ok(Seq::empty())
    } else {
        match build_combs(seqs, pairs.drop_last()) {
            Ok(acc) => {
                let cw = CombinationsView { combinations: acc, sequences: seqs };
                match comb_insert_err(cw, pairs.last().0, pairs.last().1) {
                    None => Ok(acc.push(pairs.last())),
                    Some(k) => Err(k),
                }
            },
            Err(k) => Err(k),
        }
    }
}

/// A failure while building a prefix of the pair list is the failure of
/// the whole build: later pairs are not reached.
pub proof fn lemma_build_combs_err(
    seqs: Seq<(Seq<char>, Seq<char>)>,
    pairs: Seq<(Seq<char>, Seq<char>)>,
    j: int,
)
    requires
        0 <= j <= pairs.len(),
        build_combs(seqs, pairs.take(j)) is Err,
    ensures
        build_combs(seqs, pairs) == build_combs(seqs, pairs.take(j)),
    decreases pairs.len() - j,
{
    if j < pairs.len() {
        assert(pairs.take(j + 1).drop_last() =~= pairs.take(j));
        lemma_build_combs_err(seqs, pairs, j + 1);
    } else {
        assert(pairs.take(j) =~= pairs);
    }
}

impl Combinations {
    /// Build a resolver over `sequences` from name/value pairs, inserting
    /// left to right; the first failing insertion aborts with its error.
    pub fn new(sequences: Sequences, combinations: &[(&str, &str)]) -> (r: ATResult<Combinations>)
        ensures
            match r {
                Ok(c) => c@.sequences == sequences@ && build_combs(
                    sequences@,
                    combinations@.map_values(|p: (&str, &str)| (p.0@, p.1@)),
                ) == Ok::<Seq<(Seq<char>, Seq<char>)>, ErrKind>(c@.combinations),
                Err(e) => build_combs(
                    sequences@,
                    combinations@.map_values(|p: (&str, &str)| (p.0@, p.1@)),
                ) == Err::<Seq<(Seq<char>, Seq<char>)>, ErrKind>(e@.kind),
            },
    {
        let ghost pairs = combinations@.map_values(|p: (&str, &str)| (p.0@, p.1@));
        let ghost seqs = sequences@;
        let mut comb = Combinations { combinations: Vec::new(), sequences };
        proof {
            assert(pairs.take(0) =~= Seq::<(Seq<char>, Seq<char>)>::empty());
            assert(comb@.combinations =~= Seq::<(Seq<char>, Seq<char>)>::empty());
        }
        let mut i: usize = 0;
        while i < combinations.len()
            invariant
                pairs == combinations@.map_values(|p: (&str, &str)| (p.0@, p.1@)),
                seqs == sequences@,
                0 <= i <= pairs.len(),
                pairs.len() == combinations@.len(),
                comb@.sequences == seqs,
                build_combs(seqs, pairs.take(i as int)) == Ok::<
                    Seq<(Seq<char>, Seq<char>)>,
                    ErrKind,
                >(comb@.combinations),
            decreases pairs.len() - i,
        {
            proof {
                assert(pairs.take(i as int + 1).drop_last() =~= pairs.take(i as int));
                assert(pairs.take(i as int + 1).last() == pairs[i as int]);
            }
            let pair = combinations[i];
            proof {
                assert(pairs[i as int] == (combinations@[i as int].0@, combinations@[i as int].1@));
            }
            match comb.insert(pair.0, pair.1) {
                Ok(_) => {},
                Err(e) => {
                    proof {
                        let cw = CombinationsView {
                            combinations: comb@.combinations,
                            sequences: seqs,
                        };
                        assert(comb@ == cw);
                        assert(build_combs(seqs, pairs.take(i as int + 1)) == Err::<
                            Seq<(Seq<char>, Seq<char>)>,
                            ErrKind,
                        >(e@.kind));
                        lemma_build_combs_err(seqs, pairs, i as int + 1);
                    }
                    return Err(e);
                },
            }
            i = i + 1;
        }
        proof {
            assert(pairs.take(pairs.len() as int) =~= pairs);
        }
        Ok(comb)
    }

    /// Decompose a string into its whitespace-separated command tokens,
    /// keeping the leftmost token's parse error.
    pub fn decompose(combination: &str) -> (r: ATResult<Vec<Command>>)
        ensures
            match r {
                Ok(cmds) => decompose_spec(combination@) == Ok::<Seq<CommandView>, ErrKind>(
                    cmd_views(cmds@),
                ) && forall|i: int| 0 <= i < cmds@.len() ==> (#[trigger] cmds@[i]).wf(),
                Err(e) => decompose_spec(combination@) == Err::<Seq<CommandView>, ErrKind>(e@.kind)
                    && e@.message is None,
            },
    {
        let v = str_chars(combination);
        let n = v.len();
        let mut cmds: Vec<Command> = Vec::new();
        let mut cur: Vec<char> = Vec::new();
        proof {
            assert(cmd_views(cmds@) =~= Seq::<CommandView>::empty());
        }
        let mut i: usize = 0;
        while i < n
            invariant
                v@ == combination@,
                n == v@.len(),
                0 <= i <= n,
                cur@ == split_scan(v@.take(i as int)).cur,
                parse_tokens(split_scan(v@.take(i as int)).tokens) == Ok::<
                    Seq<CommandView>,
                    ErrKind,
                >(cmd_views(cmds@)),
                forall|j: int| 0 <= j < cmds@.len() ==> (#[trigger] cmds@[j]).wf(),
            decreases n - i,
        {
            let ghost st = split_scan(v@.take(i as int));
            let ghost pre_cmds = cmds@;
            proof {
                assert(v@.take(i as int + 1).drop_last() =~= v@.take(i as int));
                assert(v@.take(i as int + 1).last() == v@[i as int]);
            }
            let c = v[i];
            if is_whitespace_char(c) {
                if cur.len() > 0 {
                    proof {
                        assert(st.tokens.push(st.cur).drop_last() =~= st.tokens);
                        assert(st.tokens.push(st.cur).last() == st.cur);
                    }
                    let token = chars_string(&cur);
                    match Command::from_str(token.as_str()) {
                        Ok(cmd) => {
                            cmds.push(cmd);
                            proof {
                                assert(cmd_views(cmds@) =~= cmd_views(pre_cmds).push(cmd@));
                            }
                            cur = Vec::new();
                        },
                        Err(e) => {
                            proof {
                                lemma_decompose_err_persists(v@, i as int + 1);
                            }
                            return Err(e);
                        },
                    }
                }
            } else {
                cur.push(c);
            }
            i = i + 1;
        }
        proof {
            assert(v@.take(n as int) =~= v@);
        }
        let ghost st = split_scan(v@);
        if cur.len() > 0 {
            proof {
                assert(st.tokens.push(st.cur).drop_last() =~= st.tokens);
                assert(st.tokens.push(st.cur).last() == st.cur);
            }
            let ghost pre_cmds = cmds@;
            let token = chars_string(&cur);
            match Command::from_str(token.as_str()) {
                Ok(cmd) => {
                    cmds.push(cmd);
                    proof {
                        assert(cmd_views(cmds@) =~= cmd_views(pre_cmds).push(cmd@));
                    }
                    Ok(cmds)
                },
                Err(e) => Err(e),
            }
        } else {
            Ok(cmds)
        }
    }

    /// Insert a combination under `key` with the token list `value`. The
    /// key must be valid and free in both stores, and every token must
    /// name a stored sequence; the first violation is the error, and the
    /// stores stay unchanged.
    pub fn insert(&mut self, key: &str, value: &str) -> (r: ATResult<()>)
        ensures
            match r {
                Ok(_) => comb_insert_err(old(self)@, key@, value@) is None
                    && final(self)@.combinations == old(self)@.combinations.push((key@, value@))
                    && final(self)@.sequences == old(self)@.sequences,
                Err(e) => comb_insert_err(old(self)@, key@, value@) == Some(e@.kind)
                    && final(self)@.combinations == old(self)@.combinations
                    && final(self)@.sequences == old(self)@.sequences,
            },
    {
        match Command::valid_name(key) {
            Ok(_) => {},
            Err(e) => {
                return Err(e);
            },
        }
        if self.sequences.get(key).is_some() {
            return Err(ErrAutoType::new(ErrType::KeyIsInSequences(key.to_owned())));
        }
        if pairs_get(&self.combinations, key).is_some() {
            return Err(ErrAutoType::new(ErrType::KeyIsInCombinations(key.to_owned())));
        }
        let commands = match Self::decompose(value) {
            Ok(cmds) => cmds,
            Err(e) => {
                return Err(e);
            },
        };
        let ghost views = cmd_views(commands@);
        let mut j: usize = 0;
        proof {
            assert(views.skip(0) =~= views);
        }
        while j < commands.len()
            invariant
                self@.combinations == old(self)@.combinations,
                self@.sequences == old(self)@.sequences,
                valid_name_spec(key@),
                !assoc_contains(old(self)@.sequences, key@),
                !assoc_contains(old(self)@.combinations, key@),
                decompose_spec(value@) == Ok::<Seq<CommandView>, ErrKind>(views),
                views == cmd_views(commands@),
                views.len() == commands@.len(),
                0 <= j <= commands@.len(),
                first_missing(self@.sequences, views.skip(j as int)) == first_missing(
                    self@.sequences,
                    views,
                ),
            decreases commands@.len() - j,
        {
            proof {
                assert(views.skip(j as int)[0] == views[j as int]);
                assert(views.skip(j as int).drop_first() =~= views.skip(j as int + 1));
                assert(views[j as int] == commands@[j as int]@);
            }
            if self.sequences.get(commands[j].get_name()).is_none() {
                proof {
                    assert(first_missing(self@.sequences, views.skip(j as int)) == Some(
                        views[j as int].name,
                    ));
                }
                return Err(
                    ErrAutoType::new(
                        ErrType::SequenceNotExist(commands[j].get_name().to_owned()),
                    ),
                );
            }
            j = j + 1;
        }
        proof {
            assert(views.skip(views.len() as int) =~= Seq::<CommandView>::empty());
        }
        let ghost pre = self@.combinations;
        self.combinations.push((key.to_owned(), value.to_owned()));
        proof {
            assert(self@.combinations =~= pre.push((key@, value@)));
        }
        Ok(())
    }

    /// Whether every combination is sound: its key a valid name, its value
    /// decomposable, and every token naming something defined — a token
    /// naming another combination counts as defined.
    pub fn is_valid(&self) -> (r: bool)
        ensures
            r == (forall|i: int|
                0 <= i < self@.combinations.len() ==> valid_name_spec(
                    (#[trigger] self@.combinations[i]).0,
                ) && entry_names_known(self@, self@.combinations[i].1)),
    {
        let mut i: usize = 0;
        while i < self.combinations.len()
            invariant
                0 <= i <= self@.combinations.len(),
                self@.combinations.len() == self.combinations@.len(),
                forall|j: int|
                    0 <= j < i ==> valid_name_spec((#[trigger] self@.combinations[j]).0)
                        && entry_names_known(self@, self@.combinations[j].1),
            decreases self.combinations@.len() - i,
        {
            proof {
                assert(self@.combinations[i as int] == (
                    self.combinations@[i as int].0@,
                    self.combinations@[i as int].1@,
                ));
            }
            if Command::valid_name(self.combinations[i].0.as_str()).is_err() {
                proof {
                    assert(!valid_name_spec(self@.combinations[i as int].0));
                }
                return false;
            }
            let commands = match Self::decompose(self.combinations[i].1.as_str()) {
                Ok(cmds) => cmds,
                Err(_) => {
                    proof {
                        assert(!entry_names_known(self@, self@.combinations[i as int].1));
                    }
                    return false;
                },
            };
            let ghost views = cmd_views(commands@);
            let mut j: usize = 0;
            while j < commands.len()
                invariant
                    0 <= i < self@.combinations.len(),
                    self@.combinations.len() == self.combinations@.len(),
                    views == cmd_views(commands@),
                    views.len() == commands@.len(),
                    0 <= j <= commands@.len(),
                    decompose_spec(self@.combinations[i as int].1) == Ok::<
                        Seq<CommandView>,
                        ErrKind,
                    >(views),
                    forall|m: int|
                        0 <= m < j ==> name_defined(self@, (#[trigger] views[m]).name),
                decreases commands@.len() - j,
            {
                proof {
                    assert(views[j as int] == commands@[j as int]@);
                }
                if pairs_get(&self.combinations, commands[j].get_name()).is_none()
                    && self.sequences.get(commands[j].get_name()).is_none() {
                    proof {
                        assert(!name_defined(self@, views[j as int].name));
                        assert(!entry_names_known(self@, self@.combinations[i as int].1));
                    }
                    return false;
                }
                j = j + 1;
            }
            i = i + 1;
        }
        true
    }
}

/// A name is defined when either store holds it.
pub open spec fn name_defined(c: CombinationsView, name: Seq<char>) -> bool {
    assoc_contains(c.combinations, name) || assoc_contains(c.sequences, name)
}

/// The errors that resolving a command can end in, with `fuel` nesting
/// levels left: a name neither store defines, a combination value that
/// does not decompose, exhausted fuel on a chain of combinations, or any
/// of these reached through a referenced token. Resolution stops at the
/// first error it meets; which of several reachable errors that is
/// depends on the repetition counts drawn along the way, so the reachable
/// set is what can be pinned. Expanding a stored sequence never fails.
pub open spec fn cmd_err_possible(c: CombinationsView, cv: CommandView, k: ErrKind, fuel: nat) -> bool
    decreases fuel,
{
    match assoc_lookup(c.combinations, cv.name) {
        Some(value) => if fuel == 0 {
            k == ErrKind::CyclicReference(cv.name)
        } else {
            match decompose_spec(value) {
                Ok(cmds) => exists|j: int|
                    #![trigger cmds[j]]
                    0 <= j < cmds.len() && cmd_err_possible(c, cmds[j], k, (fuel - 1) as nat),
                Err(dk) => k == dk,
            }
        },
        None => match assoc_lookup(c.sequences, cv.name) {
            Some(_) => false,
            None => k == ErrKind::SequenceNotExist(cv.name),
        },
    }
}

/// `out` is one full expansion of the command: some allowed repetition
/// count `k` of its specifier, with `k` single expansions of its name
/// concatenated.
pub open spec fn is_cmd_expansion(
    c: CombinationsView,
    cv: CommandView,
    args: Seq<Seq<char>>,
    out: Seq<char>,
    fuel: nat,
) -> bool
    decreases fuel, 3int, 0int,
{
    exists|k: nat|
        #[trigger] times_count_ok(cv.times, k) && is_repeat_expansion(c, cv.name, args, out, k, fuel)
}

/// `out` is `k` single expansions of `name` concatenated, left to right;
/// each may expand differently where a repetition count is drawn anew.
pub open spec fn is_repeat_expansion(
    c: CombinationsView,
    name: Seq<char>,
    args: Seq<Seq<char>>,
    out: Seq<char>,
    k: nat,
    fuel: nat,
) -> bool
    decreases fuel, 2int, k,
{
    if k == 0 {
        out == Seq::<char>::empty()
    } else {
        exists|prefix: Seq<char>, last: Seq<char>|
            #![trigger prefix + last]
            out == prefix + last && is_repeat_expansion(c, name, args, prefix, (k - 1) as nat, fuel)
                && is_instance_expansion(c, name, args, last, fuel)
    }
}

/// `out` is one single expansion of `name`: for a combination, its token
/// list expanded in order (spending one unit of fuel); for a sequence, the
/// stored template rendered against `args`.
pub open spec fn is_instance_expansion(
    c: CombinationsView,
    name: Seq<char>,
    args: Seq<Seq<char>>,
    out: Seq<char>,
    fuel: nat,
) -> bool
    decreases fuel, 1int, 0int,
{
    match assoc_lookup(c.combinations, name) {
        Some(value) => fuel > 0 && decompose_spec(value) is Ok && is_list_expansion(
            c,
            decompose_spec(value)->Ok_0,
            args,
            out,
            (fuel - 1) as nat,
        ),
        None => match assoc_lookup(c.sequences, name) {
            Some(t) => out == rendered(t, args),
            None => false,
        },
    }
}

/// `out` is the commands of `cmds` each fully expanded, concatenated in
/// token order.
pub open spec fn is_list_expansion(
    c: CombinationsView,
    cmds: Seq<CommandView>,
    args: Seq<Seq<char>>,
    out: Seq<char>,
    fuel: nat,
) -> bool
    decreases fuel, 4int, cmds.len(),
{
    if cmds.len() == 0 {
        out == Seq::<char>::empty()
    } else {
        exists|prefix: Seq<char>, last: Seq<char>|
            #![trigger prefix + last]
            out == prefix + last && is_list_expansion(c, cmds.drop_last(), args, prefix, fuel)
                && is_cmd_expansion(c, cmds.last(), args, last, fuel)
    }
}

/// Repeating one single expansion `k` times is a `k`-fold expansion; it is
/// how a sequence leaf repeats, whose single expansion is deterministic.
pub proof fn lemma_repeat_instances(
    c: CombinationsView,
    name: Seq<char>,
    args: Seq<Seq<char>>,
    base: Seq<char>,
    k: nat,
    fuel: nat,
)
    requires
        is_instance_expansion(c, name, args, base, fuel),
    ensures
        is_repeat_expansion(c, name, args, crate::text::repeat_seq(base, k), k, fuel),
    decreases k,
{
    if k > 0 {
        lemma_repeat_instances(c, name, args, base, (k - 1) as nat, fuel);
        let prefix = crate::text::repeat_seq(base, (k - 1) as nat);
        assert(crate::text::repeat_seq(base, k) == prefix + base);
        assert(is_repeat_expansion(c, name, args, crate::text::repeat_seq(base, k), k, fuel));
    }
}

/// A name held by the sequence store is, in disjoint stores, held by no
/// combination.
pub proof fn lemma_disjoint_not_comb(c: CombinationsView, name: Seq<char>)
    requires
        stores_disjoint(c),
        assoc_contains(c.sequences, name),
    ensures
        !assoc_contains(c.combinations, name),
{
    if assoc_contains(c.combinations, name) {
        lemma_assoc_lookup_index(c.combinations, name);
        let m = choose|m: int|
            0 <= m < c.combinations.len() && #[trigger] c.combinations[m] == (
                name,
                assoc_lookup(c.combinations, name)->Some_0,
            );
        assert(!assoc_contains(c.sequences, c.combinations[m].0));
    }
}

/// Whether resolving `name` can always finish within `fuel` nesting
/// levels: a stored sequence resolves at once; a combination needs one
/// level, a value that decomposes, and every token resolvable one level
/// deeper. Any store whose references form no cycle satisfies this for
/// every name once `fuel` reaches the nesting depth.
pub open spec fn resolvable(c: CombinationsView, name: Seq<char>, fuel: nat) -> bool
    decreases fuel,
{
    match assoc_lookup(c.combinations, name) {
        Some(value) => fuel > 0 && match decompose_spec(value) {
            Ok(cmds) => forall|j: int|
                #![trigger cmds[j]]
                0 <= j < cmds.len() ==> resolvable(c, cmds[j].name, (fuel - 1) as nat),
            Err(_) => false,
        },
        None => assoc_contains(c.sequences, name),
    }
}

/// In a store whose combinations decompose and reference stored sequences
/// only, every defined name is resolvable: a referenced sequence resolves
/// at once, so one level of budget suffices for the combinations.
pub proof fn lemma_valid_config_resolvable(c: CombinationsView, name: Seq<char>, fuel: nat)
    requires
        valid_config(c),
        stores_disjoint(c),
        name_defined(c, name),
        assoc_contains(c.combinations, name) ==> fuel >= 1,
    ensures
        resolvable(c, name, fuel),
{
    if assoc_contains(c.combinations, name) {
        lemma_assoc_lookup_index(c.combinations, name);
        let m = choose|m: int|
            0 <= m < c.combinations.len() && #[trigger] c.combinations[m] == (
                name,
                assoc_lookup(c.combinations, name)->Some_0,
            );
        assert(entry_resolvable(c.sequences, c.combinations[m].1));
        let value = assoc_lookup(c.combinations, name)->Some_0;
        let cmds = decompose_spec(value)->Ok_0;
        assert forall|j: int| 0 <= j < cmds.len() implies resolvable(
            c,
            (#[trigger] cmds[j]).name,
            (fuel - 1) as nat,
        ) by {
            assert(assoc_contains(c.sequences, cmds[j].name));
            lemma_disjoint_not_comb(c, cmds[j].name);
        }
    }
}

impl Combinations {
    /// Expand one command with bounded recursion depth. Its name is looked
    /// up among the combinations first; the stored token list is then
    /// expanded recursively, as many times over as the command asks, with
    /// one unit of fuel spent per nesting level. A name held by neither
    /// store fails as a missing sequence; exhausted fuel means the
    /// combinations reference each other in a cycle.
    fn expand_cmd(&self, command: &Command, args: &Vec<String>, fuel: usize) -> (r: ATResult<
        String,
    >)
        requires
            command.wf(),
        ensures
            r is Ok ==> is_cmd_expansion(
                self@,
                command@,
                args.deep_view(),
                r->Ok_0@,
                fuel as nat,
            ),
            !assoc_contains(self@.combinations, command@.name) ==> match r {
                Ok(_) => assoc_contains(self@.sequences, command@.name),
                Err(e) => !assoc_contains(self@.sequences, command@.name) && e@.kind
                    == ErrKind::SequenceNotExist(command@.name),
            },
            r is Err ==> cmd_err_possible(self@, command@, r->Err_0@.kind, fuel as nat)
                && r->Err_0@.message is None,
            resolvable(self@, command@.name, fuel as nat) ==> r is Ok,
        decreases fuel,
    {
        let ghost cw = self@;
        let ghost name = command@.name;
        match pairs_get(&self.combinations, command.get_name()) {
            Some(value) => {
                if fuel == 0 {
                    proof {
                        assert(assoc_contains(cw.combinations, name));
                    }
                    return Err(
                        ErrAutoType::new(
                            ErrType::CyclicReference(command.get_name().to_owned()),
                        ),
                    );
                }
                let commands = match Self::decompose(value.as_str()) {
                    Ok(cmds) => cmds,
                    Err(e) => {
                        return Err(e);
                    },
                };
                let ghost views = cmd_views(commands@);
                let times = command.get_times();
                let mut out = String::new();
                let mut rep: usize = 0;
                while rep < times
                    invariant
                        cw == self@,
                        name == command@.name,
                        fuel >= 1,
                        assoc_lookup(cw.combinations, name) is Some,
                        decompose_spec(assoc_lookup(cw.combinations, name)->Some_0) == Ok::<
                            Seq<CommandView>,
                            ErrKind,
                        >(views),
                        views == cmd_views(commands@),
                        views.len() == commands@.len(),
                        forall|j: int| 0 <= j < commands@.len() ==> (#[trigger] commands@[j]).wf(),
                        0 <= rep <= times,
                        is_repeat_expansion(
                            cw,
                            name,
                            args.deep_view(),
                            out@,
                            rep as nat,
                            fuel as nat,
                        ),
                    decreases times - rep,
                {
                    let ghost out_pre = out@;
                    let mut inst = String::new();
                    let mut j: usize = 0;
                    proof {
                        assert(views.take(0) =~= Seq::<CommandView>::empty());
                    }
                    while j < commands.len()
                        invariant
                            cw == self@,
                            name == command@.name,
                            assoc_contains(cw.combinations, name),
                            decompose_spec(assoc_lookup(cw.combinations, name)->Some_0) == Ok::<
                                Seq<CommandView>,
                                ErrKind,
                            >(views),
                            fuel >= 1,
                            views == cmd_views(commands@),
                            views.len() == commands@.len(),
                            forall|m: int|
                                0 <= m < commands@.len() ==> (#[trigger] commands@[m]).wf(),
                            0 <= j <= commands@.len(),
                            is_list_expansion(
                                cw,
                                views.take(j as int),
                                args.deep_view(),
                                inst@,
                                (fuel - 1) as nat,
                            ),
                        decreases commands@.len() - j,
                    {
                        proof {
                            assert(views[j as int] == commands@[j as int]@);
                        }
                        match self.expand_cmd(&commands[j], args, fuel - 1) {
                            Ok(piece) => {
                                let ghost inst_pre = inst@;
                                inst.append(piece.as_str());
                                proof {
                                    assert(views.take(j as int + 1).drop_last() =~= views.take(
                                        j as int,
                                    ));
                                    assert(views.take(j as int + 1).last() == views[j as int]);
                                    assert(is_cmd_expansion(
                                        cw,
                                        views[j as int],
                                        args.deep_view(),
                                        piece@,
                                        (fuel - 1) as nat,
                                    ));
                                    assert(is_list_expansion(
                                        cw,
                                        views.take(j as int + 1),
                                        args.deep_view(),
                                        inst@,
                                        (fuel - 1) as nat,
                                    ));
                                }
                            },
                            Err(e) => {
                                proof {
                                    assert(decompose_spec(
                                        assoc_lookup(cw.combinations, name)->Some_0,
                                    )->Ok_0[j as int] == views[j as int]);
                                    assert(cmd_err_possible(cw, command@, e@.kind, fuel as nat));
                                    if resolvable(cw, name, fuel as nat) {
                                        assert(resolvable(
                                            cw,
                                            views[j as int].name,
                                            (fuel - 1) as nat,
                                        ));
                                        assert(false);
                                    }
                                }
                                return Err(e);
                            },
                        }
                        j = j + 1;
                    }
                    proof {
                        assert(views.take(views.len() as int) =~= views);
                        assert(is_instance_expansion(
                            cw,
                            name,
                            args.deep_view(),
                            inst@,
                            fuel as nat,
                        ));
                    }
                    out.append(inst.as_str());
                    proof {
                        assert(is_repeat_expansion(
                            cw,
                            name,
                            args.deep_view(),
                            out@,
                            rep as nat + 1,
                            fuel as nat,
                        ));
                    }
                    rep = rep + 1;
                }
                proof {
                    assert(times_count_ok(command@.times, times as nat));
                    assert(is_cmd_expansion(cw, command@, args.deep_view(), out@, fuel as nat));
                }
                Ok(out)
            },
            None => {
                let r = self.sequences.get_sequence_cmd(command, args);
                proof {
                    match r {
                        Ok(ref out) => {
                            let t = crate::store::assoc_lookup(cw.sequences, name)->Some_0;
                            let k = choose|k: nat|
                                times_count_ok(command@.times, k) && out@
                                    == crate::text::repeat_seq(
                                    rendered(t, args.deep_view()),
                                    k,
                                );
                            assert(is_instance_expansion(
                                cw,
                                name,
                                args.deep_view(),
                                rendered(t, args.deep_view()),
                                fuel as nat,
                            ));
                            lemma_repeat_instances(
                                cw,
                                name,
                                args.deep_view(),
                                rendered(t, args.deep_view()),
                                k,
                                fuel as nat,
                            );
                            assert(is_cmd_expansion(
                                cw,
                                command@,
                                args.deep_view(),
                                out@,
                                fuel as nat,
                            ));
                        },
                        Err(_) => {},
                    }
                }
                r
            },
        }
    }

    /// Generate the text of a command: a combination is expanded
    /// recursively, a plain sequence rendered and repeated. Resolution of
    /// any [`resolvable`] name succeeds — in particular, of every defined
    /// name of a store whose combination values decompose and reference
    /// stored sequences only, the two stores disjoint. An error is always
    /// one the reference structure makes reachable ([`cmd_err_possible`]).
    pub fn get_sequence_cmd(&self, command: &Command, args: &Vec<String>) -> (r: ATResult<String>)
        requires
            command.wf(),
        ensures
            r is Ok ==> is_cmd_expansion(
                self@,
                command@,
                args.deep_view(),
                r->Ok_0@,
                self@.combinations.len() as nat,
            ),
            !assoc_contains(self@.combinations, command@.name) ==> match r {
                Ok(_) => assoc_contains(self@.sequences, command@.name),
                Err(e) => !assoc_contains(self@.sequences, command@.name) && e@.kind
                    == ErrKind::SequenceNotExist(command@.name),
            },
            r is Err ==> cmd_err_possible(
                self@,
                command@,
                r->Err_0@.kind,
                self@.combinations.len() as nat,
            ) && r->Err_0@.message is None,
            resolvable(self@, command@.name, self@.combinations.len() as nat) ==> r is Ok,
            (valid_config(self@) && stores_disjoint(self@) && name_defined(self@, command@.name))
                ==> r is Ok,
    {
        let fuel = self.combinations.len();
        proof {
            assert(self@.combinations.len() == self.combinations@.len());
            if assoc_contains(self@.combinations, command@.name) {
                lemma_assoc_lookup_index(self@.combinations, command@.name);
            }
            if valid_config(self@) && stores_disjoint(self@) && name_defined(
                self@,
                command@.name,
            ) {
                lemma_valid_config_resolvable(self@, command@.name, fuel as nat);
            }
        }
        self.expand_cmd(command, args, fuel)
    }

    /// Generate the text of one or more top-level commands given as a
    /// whitespace-separated key string: each token is resolved in order
    /// and the results are concatenated.
    pub fn get_sequence(&self, key: &str, args: &Vec<String>) -> (r: ATResult<String>)
        ensures
            r is Ok ==> decompose_spec(key@) is Ok && is_list_expansion(
                self@,
                decompose_spec(key@)->Ok_0,
                args.deep_view(),
                r->Ok_0@,
                self@.combinations.len() as nat,
            ),
            (r is Err && decompose_spec(key@) is Err) ==> r->Err_0@.kind == decompose_spec(
                key@,
            )->Err_0,
            r is Err ==> r->Err_0@.message is None,
            (r is Err && decompose_spec(key@) is Ok) ==> exists|j: int|
                0 <= j < decompose_spec(key@)->Ok_0.len() && cmd_err_possible(
                    self@,
                    #[trigger] decompose_spec(key@)->Ok_0[j],
                    r->Err_0@.kind,
                    self@.combinations.len() as nat,
                ),
            (decompose_spec(key@) is Ok && (forall|j: int|
                0 <= j < decompose_spec(key@)->Ok_0.len() ==> resolvable(
                    self@,
                    (#[trigger] decompose_spec(key@)->Ok_0[j]).name,
                    self@.combinations.len() as nat,
                ))) ==> r is Ok,
            (valid_config(self@) && stores_disjoint(self@) && decompose_spec(key@) is Ok
                && (forall|j: int|
                0 <= j < decompose_spec(key@)->Ok_0.len() ==> name_defined(
                    self@,
                    (#[trigger] decompose_spec(key@)->Ok_0[j]).name,
                ))) ==> r is Ok,
    {
        let ghost cw = self@;
        let commands = match Self::decompose(key) {
            Ok(cmds) => cmds,
            Err(e) => {
                return Err(e);
            },
        };
        let ghost views = cmd_views(commands@);
        let mut out = String::new();
        let mut j: usize = 0;
        proof {
            assert(views.take(0) =~= Seq::<CommandView>::empty());
        }
        while j < commands.len()
            invariant
                cw == self@,
                decompose_spec(key@) == Ok::<Seq<CommandView>, ErrKind>(views),
                views == cmd_views(commands@),
                views.len() == commands@.len(),
                forall|m: int| 0 <= m < commands@.len() ==> (#[trigger] commands@[m]).wf(),
                0 <= j <= commands@.len(),
                is_list_expansion(
                    cw,
                    views.take(j as int),
                    args.deep_view(),
                    out@,
                    cw.combinations.len() as nat,
                ),
            decreases commands@.len() - j,
        {
            proof {
                assert(views[j as int] == commands@[j as int]@);
            }
            match self.get_sequence_cmd(&commands[j], args) {
                Ok(piece) => {
                    out.append(piece.as_str());
                    proof {
                        assert(views.take(j as int + 1).drop_last() =~= views.take(j as int));
                        assert(views.take(j as int + 1).last() == views[j as int]);
                        assert(is_list_expansion(
                            cw,
                            views.take(j as int + 1),
                            args.deep_view(),
                            out@,
                            cw.combinations.len() as nat,
                        ));
                    }
                },
                Err(e) => {
                    proof {
                        assert(decompose_spec(key@)->Ok_0 == views);
                        assert(decompose_spec(key@)->Ok_0[j as int] == views[j as int]);
                        assert(cw.combinations.len() == self.combinations@.len());
                        if valid_config(cw) && stores_disjoint(cw) && (forall|m: int|
                            0 <= m < decompose_spec(key@)->Ok_0.len() ==> name_defined(
                                cw,
                                (#[trigger] decompose_spec(key@)->Ok_0[m]).name,
                            )) {
                            assert(name_defined(cw, decompose_spec(key@)->Ok_0[j as int].name));
                            assert(views[j as int].name == decompose_spec(
                                key@,
                            )->Ok_0[j as int].name);
                            assert(false);
                        }
                        if forall|m: int|
                            0 <= m < decompose_spec(key@)->Ok_0.len() ==> resolvable(
                                cw,
                                (#[trigger] decompose_spec(key@)->Ok_0[m]).name,
                                cw.combinations.len() as nat,
                            ) {
                            assert(resolvable(
                                cw,
                                decompose_spec(key@)->Ok_0[j as int].name,
                                cw.combinations.len() as nat,
                            ));
                            assert(false);
                        }
                    }
                    return Err(e);
                },
            }
            j = j + 1;
        }
        proof {
            assert(views.take(views.len() as int) =~= views);
        }
        Ok(out)
    }
}

/// Mapping each error to its kind commutes with appending one error.
proof fn lemma_kinds_push(s: Seq<ErrAutoType>, e: ErrAutoType)
    ensures
        s.push(e).map_values(|x: ErrAutoType| x@.kind) =~= s.map_values(
            |x: ErrAutoType| x@.kind,
        ).push(e@.kind),
{
    let f = |x: ErrAutoType| x@.kind;
    assert forall|m: int| 0 <= m < s.len() + 1 implies s.push(e).map_values(f)[m] == s.map_values(
        f,
    ).push(e@.kind)[m] by {
        if m < s.len() {
            assert(s.push(e)[m] == s[m]);
        } else {
            assert(s.push(e)[m] == e);
        }
    }
}

/// One error per command of `cmds` whose name neither store defines, in
/// token order; a token naming another combination is skipped.
pub open spec fn unknown_kinds(c: CombinationsView, cmds: Seq<CommandView>) -> Seq<ErrKind>
    decreases cmds.len(),
{
    if cmds.len() == 0 {
        Seq::empty()
    } else if name_defined(c, cmds.last().name) {
        unknown_kinds(c, cmds.drop_last())
    } else {
        unknown_kinds(c, cmds.drop_last()).push(ErrKind::UnknownSequence(cmds.last().name))
    }
}

/// The errors of one combination value: its decomposition error, or one
/// error per reference to a name neither store defines.
pub open spec fn value_error_kinds(c: CombinationsView, value: Seq<char>) -> Seq<ErrKind> {
    match decompose_spec(value) {
        Ok(cmds) => unknown_kinds(c, cmds),
        Err(k) => seq![k],
    }
}

/// The value errors of the given combination entries, in store order;
/// token names are checked against the whole resolver `c`.
pub open spec fn all_value_error_kinds(
    c: CombinationsView,
    entries: Seq<(Seq<char>, Seq<char>)>,
) -> Seq<ErrKind>
    decreases entries.len(),
{
    if entries.len() == 0 {
        Seq::empty()
    } else {
        all_value_error_kinds(c, entries.drop_last()) + value_error_kinds(c, entries.last().1)
    }
}

/// Everything wrong with a resolver: invalid combination keys, then the
/// sequence store's own key errors, then every value error.
pub open spec fn total_error_kinds(c: CombinationsView) -> Seq<ErrKind> {
    Command::invalid_kinds(assoc_keys(c.combinations)) + Command::invalid_kinds(
        assoc_keys(c.sequences),
    ) + all_value_error_kinds(c, c.combinations)
}

impl Combinations {
    /// Every error in the resolver, collected without stopping at the
    /// first: invalid keys in either store, values that do not decompose,
    /// and references to unknown sequences. No error means all is sound.
    pub fn get_errors(&self) -> (r: ATVecResult<()>)
        ensures
            match r {
                Ok(_) => total_error_kinds(self@) =~= Seq::<ErrKind>::empty(),
                Err(errs) => errs@.map_values(|e: ErrAutoType| e@.kind) == total_error_kinds(
                    self@,
                ) && errs@.len() > 0,
            },
    {
        let ghost cw = self@;
        let ghost kind_of = |e: ErrAutoType| e@.kind;
        let mut errs: Vec<ErrAutoType> = Vec::new();
        let keys = pairs_keys(&self.combinations);
        match Command::are_valid_names(&keys) {
            Ok(_) => {
                proof {
                    assert(errs@.map_values(kind_of) =~= Command::invalid_kinds(
                        assoc_keys(cw.combinations),
                    ));
                }
            },
            Err(mut es) => {
                let ghost pre = es@;
                errs.append(&mut es);
                proof {
                    assert(errs@ =~= pre);
                    assert(errs@.map_values(kind_of) =~= Command::invalid_kinds(
                        assoc_keys(cw.combinations),
                    ));
                }
            },
        }
        let ghost part_a = Command::invalid_kinds(assoc_keys(cw.combinations));
        match self.sequences.get_errors() {
            Ok(_) => {
                proof {
                    assert(errs@.map_values(kind_of) =~= part_a + Command::invalid_kinds(
                        assoc_keys(cw.sequences),
                    ));
                }
            },
            Err(mut es) => {
                let ghost pre = errs@;
                let ghost more = es@;
                errs.append(&mut es);
                proof {
                    assert(errs@ =~= pre + more);
                    assert forall|m: int| 0 <= m < errs@.len() implies errs@.map_values(kind_of)[m]
                        == (pre.map_values(kind_of) + more.map_values(kind_of))[m] by {
                        if m < pre.len() {
                            assert(errs@[m] == pre[m]);
                        } else {
                            assert(errs@[m] == more[m - pre.len()]);
                        }
                    }
                    assert(errs@.map_values(kind_of) =~= part_a + Command::invalid_kinds(
                        assoc_keys(cw.sequences),
                    ));
                }
            },
        }
        let ghost part_ab = part_a + Command::invalid_kinds(assoc_keys(cw.sequences));
        let mut i: usize = 0;
        proof {
            assert(cw.combinations.take(0) =~= Seq::<(Seq<char>, Seq<char>)>::empty());
            assert(errs@.map_values(kind_of) =~= part_ab + all_value_error_kinds(
                cw,
                cw.combinations.take(0),
            ));
        }
        while i < self.combinations.len()
            invariant
                cw == self@,
                kind_of == (|e: ErrAutoType| e@.kind),
                part_ab == Command::invalid_kinds(assoc_keys(cw.combinations))
                    + Command::invalid_kinds(assoc_keys(cw.sequences)),
                cw.combinations.len() == self.combinations@.len(),
                0 <= i <= self.combinations@.len(),
                errs@.map_values(kind_of) == part_ab + all_value_error_kinds(
                    cw,
                    cw.combinations.take(i as int),
                ),
            decreases self.combinations@.len() - i,
        {
            proof {
                assert(cw.combinations.take(i as int + 1).drop_last() =~= cw.combinations.take(
                    i as int,
                ));
                assert(cw.combinations.take(i as int + 1).last() == cw.combinations[i as int]);
                assert(cw.combinations[i as int] == (
                    self.combinations@[i as int].0@,
                    self.combinations@[i as int].1@,
                ));
            }
            let ghost done = all_value_error_kinds(cw, cw.combinations.take(i as int));
            match Self::decompose(self.combinations[i].1.as_str()) {
                Ok(commands) => {
                    let ghost views = cmd_views(commands@);
                    let mut j: usize = 0;
                    proof {
                        assert(views.take(0) =~= Seq::<CommandView>::empty());
                    }
                    while j < commands.len()
                        invariant
                            cw == self@,
                            kind_of == (|e: ErrAutoType| e@.kind),
                            views == cmd_views(commands@),
                            views.len() == commands@.len(),
                            0 <= j <= commands@.len(),
                            errs@.map_values(kind_of) == part_ab + done + unknown_kinds(
                                cw,
                                views.take(j as int),
                            ),
                        decreases commands@.len() - j,
                    {
                        proof {
                            assert(views.take(j as int + 1).drop_last() =~= views.take(j as int));
                            assert(views.take(j as int + 1).last() == views[j as int]);
                            assert(views[j as int] == commands@[j as int]@);
                        }
                        if pairs_get(&self.combinations, commands[j].get_name()).is_none()
                            && self.sequences.get(commands[j].get_name()).is_none() {
                            let ghost pre_errs = errs@;
                            errs.push(
                                ErrAutoType::new(
                                    ErrType::UnknownSequence(commands[j].get_name().to_owned()),
                                ),
                            );
                            proof {
                                let kind = ErrKind::UnknownSequence(views[j as int].name);
                                assert(!name_defined(cw, views[j as int].name));
                                lemma_kinds_push(pre_errs, errs@.last());
                                assert(errs@ == pre_errs.push(errs@.last()));
                                assert(errs@.map_values(kind_of) == pre_errs.map_values(
                                    kind_of,
                                ).push(kind));
                                assert(unknown_kinds(cw, views.take(j as int + 1))
                                    == unknown_kinds(cw, views.take(j as int)).push(kind));
                                assert((part_ab + done + unknown_kinds(
                                    cw,
                                    views.take(j as int),
                                )).push(kind) =~= part_ab + done + unknown_kinds(
                                    cw,
                                    views.take(j as int + 1),
                                ));
                            }
                        }
                        j = j + 1;
                    }
                    proof {
                        assert(views.take(views.len() as int) =~= views);
                        assert(value_error_kinds(cw, cw.combinations[i as int].1)
                            == unknown_kinds(cw, views));
                        assert(errs@.map_values(kind_of) =~= part_ab + all_value_error_kinds(
                            cw,
                            cw.combinations.take(i as int + 1),
                        ));
                    }
                },
                Err(e) => {
                    let ghost pre_errs = errs@;
                    let ghost kind = e@.kind;
                    errs.push(e);
                    proof {
                        lemma_kinds_push(pre_errs, errs@.last());
                        assert(errs@ == pre_errs.push(errs@.last()));
                        assert(errs@.map_values(kind_of) == pre_errs.map_values(kind_of).push(
                            kind,
                        ));
                        assert(value_error_kinds(cw, cw.combinations[i as int].1)
                            =~= seq![kind]);
                        assert((part_ab + done).push(kind) =~= part_ab + (done + seq![kind]));
                        assert(errs@.map_values(kind_of) =~= part_ab + all_value_error_kinds(
                            cw,
                            cw.combinations.take(i as int + 1),
                        ));
                    }
                },
            }
            i = i + 1;
        }
        proof {
            assert(cw.combinations.take(self.combinations@.len() as int) =~= cw.combinations);
        }
        if errs.len() == 0 {
            proof {
                assert(errs@.map_values(kind_of) =~= Seq::<ErrKind>::empty());
                assert(total_error_kinds(cw) =~= Seq::<ErrKind>::empty());
            }
            Ok(())
        } else {
            proof {
                assert(errs@.map_values(|e: ErrAutoType| e@.kind) == errs@.map_values(kind_of));
                assert(total_error_kinds(cw) == part_ab + all_value_error_kinds(
                    cw,
                    cw.combinations,
                ));
            }
            Err(errs)
        }
    }
}

impl Combinations {
    /// All command names of both stores, sorted ascending; used for
    /// listing, not resolution.
    pub fn list_all_commands(&self) -> (r: Vec<String>)
        ensures
            sorted_names(r.deep_view()),
            r.deep_view().to_multiset() == (assoc_keys(self@.sequences) + assoc_keys(
                self@.combinations,
            )).to_multiset(),
    {
        let mut all = self.sequences.get_keys();
        let mut more = pairs_keys(&self.combinations);
        let ghost a_deep = all.deep_view();
        let ghost b_deep = more.deep_view();
        all.append(&mut more);
        proof {
            assert forall|m: int| 0 <= m < all.deep_view().len() implies all.deep_view()[m] == (
            a_deep + b_deep)[m] by {
                assert(all.deep_view()[m] == all@[m]@);
            }
            assert(all.deep_view() =~= a_deep + b_deep);
        }
        let ghost whole = all.deep_view();
        let mut out: Vec<String> = Vec::new();
        let mut i: usize = 0;
        proof {
            broadcast use vstd::seq_lib::group_to_multiset_ensures;

            assert(whole.take(0) =~= Seq::<Seq<char>>::empty());
            assert(out.deep_view() =~= Seq::<Seq<char>>::empty());
            assert(out.deep_view().to_multiset() =~= whole.take(0).to_multiset());
        }
        while i < all.len()
            invariant
                whole == all.deep_view(),
                whole.len() == all@.len(),
                0 <= i <= all@.len(),
                sorted_names(out.deep_view()),
                out.deep_view().to_multiset() == whole.take(i as int).to_multiset(),
            decreases all@.len() - i,
        {
            proof {
                assert(whole[i as int] == all@[i as int]@);
            }
            sorted_insert(&mut out, all[i].clone());
            proof {
                broadcast use vstd::seq_lib::group_to_multiset_ensures;

                assert(whole.take(i as int + 1) =~= whole.take(i as int).push(whole[i as int]));
            }
            i = i + 1;
        }
        proof {
            assert(whole.take(all@.len() as int) =~= whole);
        }
        out
    }
}

/// Law: the outer repetition wraps the fully expanded inner token list.
/// A full expansion of a command with a fixed count `n` is exactly `n`
/// single expansions of its name concatenated, each a left-to-right
/// concatenation of its token expansions.
pub proof fn lemma_fixed_expansion_structure(
    c: CombinationsView,
    cv: CommandView,
    args: Seq<Seq<char>>,
    out: Seq<char>,
    fuel: nat,
    n: usize,
)
    requires
        cv.times == Some(Times::Number(n)),
        is_cmd_expansion(c, cv, args, out, fuel),
    ensures
        is_repeat_expansion(c, cv.name, args, out, n as nat, fuel),
{
    let k = choose|k: nat|
        #[trigger] times_count_ok(cv.times, k) && is_repeat_expansion(c, cv.name, args, out, k, fuel);
    assert(k == n);
}

} // verus!
