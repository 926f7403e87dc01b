//! The sequence store: a validated mapping from name to raw template text.

use vstd::prelude::*;

use crate::command::{
    times_count_ok, valid_name_spec, name_error_kind, Command, Times,
};
use crate::content::{rendered, Content};
use crate::error::{ATResult, ATVecResult, ErrAutoType, ErrKind, ErrType};
use crate::store::{assoc_contains, assoc_keys, assoc_lookup, pairs_get, pairs_keys, pairs_view};
use crate::text::{append_repeated, repeat_seq};

verus! {

/// What building a store from a list of pairs, inserting left to right,
/// yields: the entries in order, or the first insertion error.
pub open spec fn build_entries(
    pairs: Seq<(Seq<char>, Seq<char>)>,
) -> Result<Seq<(Seq<char>, Seq<char>)>, ErrKind>
    decreases pairs.len(),
{
    if pairs.len() == 0 {
        Ok(Seq::empty())
    } else {
        match build_entries(pairs.drop_last()) {
            Ok(acc) => {
                let k = pairs.last().0;
                if !valid_name_spec(k) {
                    Err(name_error_kind(k))
                } else if assoc_contains(acc, k) {
                    Err(ErrKind::KeyIsInSequences(k))
                } else {
                    Ok(acc.push(pairs.last()))
                }
            },
            Err(e) => Err(e),
        }
    }
}

/// A failure while building a prefix of the pair list is the failure of the
/// whole build: later pairs are not reached.
pub proof fn lemma_build_entries_err(pairs: Seq<(Seq<char>, Seq<char>)>, j: int)
    requires
        0 <= j <= pairs.len(),
        build_entries(pairs.take(j)) is Err,
    ensures
        build_entries(pairs) == build_entries(pairs.take(j)),
    decreases pairs.len() - j,
{
    if j < pairs.len() {
        assert(pairs.take(j + 1).drop_last() =~= pairs.take(j));
        lemma_build_entries_err(pairs, j + 1);
    } else {
        assert(pairs.take(j) =~= pairs);
    }
}

/// Collection of defined sequences: named leaf templates.
#[derive(Debug)]
pub struct Sequences(pub Vec<(String, String)>);

impl View for Sequences {
    type V = Seq<(Seq<char>, Seq<char>)>;

    open spec fn view(&self) -> Seq<(Seq<char>, Seq<char>)> {
        pairs_view(self.0@)
    }
}

impl Default for Sequences {
    /// An empty store.
    fn default() -> (r: Sequences)
        ensures
            r@ =~= Seq::<(Seq<char>, Seq<char>)>::empty(),
    {
        Sequences(Vec::new())
    }
}

impl Sequences {
    /// Build a store from name/template pairs, inserting left to right;
    /// the first invalid or duplicate name aborts with its error.
    pub fn new(sequences: &[(&str, &str)]) -> (r: ATResult<Sequences>)
        ensures
            match r {
                Ok(s) => build_entries(
                    sequences@.map_values(|p: (&str, &str)| (p.0@, p.1@)),
                ) == Ok::<Seq<(Seq<char>, Seq<char>)>, ErrKind>(s@),
                Err(e) => build_entries(
                    sequences@.map_values(|p: (&str, &str)| (p.0@, p.1@)),
                ) == Err::<Seq<(Seq<char>, Seq<char>)>, ErrKind>(e@.kind),
            },
    {
        let ghost pairs = sequences@.map_values(|p: (&str, &str)| (p.0@, p.1@));
        let mut seq = Sequences(Vec::new());
        proof {
            assert(pairs.take(0) =~= Seq::<(Seq<char>, Seq<char>)>::empty());
            assert(seq@ =~= Seq::<(Seq<char>, Seq<char>)>::empty());
        }
        let mut i: usize = 0;
        while i < sequences.len()
            invariant
                pairs == sequences@.map_values(|p: (&str, &str)| (p.0@, p.1@)),
                0 <= i <= pairs.len(),
                pairs.len() == sequences@.len(),
                build_entries(pairs.take(i as int)) == Ok::<
                    Seq<(Seq<char>, Seq<char>)>,
                    ErrKind,
                >(seq@),
            decreases pairs.len() - i,
        {
            proof {
                assert(pairs.take(i as int + 1).drop_last() =~= pairs.take(i as int));
                assert(pairs.take(i as int + 1).last() == pairs[i as int]);
            }
            let pair = sequences[i];
            proof {
                assert(pairs[i as int] == (sequences@[i as int].0@, sequences@[i as int].1@));
            }
            match seq.insert(pair.0, pair.1) {
                Ok(_) => {},
                Err(e) => {
                    proof {
                        lemma_build_entries_err(pairs, i as int + 1);
                    }
                    return Err(e);
                },
            }
            i = i + 1;
        }
        proof {
            assert(pairs.take(pairs.len() as int) =~= pairs);
        }
        Ok(seq)
    }

    /// The value stored under `key`, or nothing.
    pub fn get(&self, key: &str) -> (r: Option<&String>)
        ensures
            match r {
                Some(v) => assoc_lookup(self@, key@) == Some(v@),
                None => assoc_lookup(self@, key@) is None,
            },
    {
        pairs_get(&self.0, key)
    }

    /// Insert `key` and `value`. An invalid key and a key already present
    /// are rejected, each with its own error, and leave the store unchanged.
    pub fn insert(&mut self, key: &str, value: &str) -> (r: ATResult<()>)
        ensures
            match r {
                Ok(_) => valid_name_spec(key@) && !assoc_contains(old(self)@, key@)
                    && final(self)@ == old(self)@.push((key@, value@)),
                Err(e) => final(self)@ == old(self)@ && e@.message is None && e@.kind == (
                if !valid_name_spec(key@) {
                    name_error_kind(key@)
                } else {
                    ErrKind::KeyIsInSequences(key@)
                }) && (valid_name_spec(key@) ==> assoc_contains(old(self)@, key@)),
            },
    {
        match Command::valid_name(key) {
            Ok(_) => {},
            Err(e) => {
                return Err(e);
            },
        }
        match self.get(key) {
            Some(_) => Err(ErrAutoType::new(ErrType::KeyIsInSequences(key.to_owned()))),
            None => {
                let ghost pre = self@;
                self.0.push((key.to_owned(), value.to_owned()));
                proof {
                    assert(self@ =~= pre.push((key@, value@)));
                }
                Ok(())
            },
        }
    }

    /// Generate the text of a sequence command: the stored template of the
    /// command's name, rendered against `args` and repeated as many times
    /// as the command asks for. Fails exactly when the name is not stored.
    pub fn get_sequence_cmd(&self, command: &Command, args: &Vec<String>) -> (r: ATResult<String>)
        requires
            command.wf(),
        ensures
            match r {
                Ok(out) => assoc_lookup(self@, command@.name) is Some && exists|k: nat|
                    times_count_ok(command@.times, k) && out@ == repeat_seq(
                        rendered(assoc_lookup(self@, command@.name)->Some_0, args.deep_view()),
                        k,
                    ),
                Err(e) => assoc_lookup(self@, command@.name) is None && e@.kind
                    == ErrKind::SequenceNotExist(command@.name) && e@.message is None,
            },
    {
        match self.get(command.get_name()) {
            Some(template) => {
                let content = Content::from(template.as_str());
                let once = content.generate_content(args);
                let times = command.get_times();
                let mut out = String::new();
                append_repeated(&mut out, once.as_str(), times);
                proof {
                    let base = rendered(
                        assoc_lookup(self@, command@.name)->Some_0,
                        args.deep_view(),
                    );
                    assert(Seq::<char>::empty() + repeat_seq(base, times as nat) =~= repeat_seq(
                        base,
                        times as nat,
                    ));
                    assert(times_count_ok(command@.times, times as nat) && out@ == repeat_seq(
                        base,
                        times as nat,
                    ));
                }
                Ok(out)
            },
            None => Err(
                ErrAutoType::new(ErrType::SequenceNotExist(command.get_name().to_owned())),
            ),
        }
    }

    /// Generate the text of a sequence command given as a token string:
    /// parse it, then resolve as [`Sequences::get_sequence_cmd`] does.
    pub fn get_sequence(&self, key: &str, args: &Vec<String>) -> (r: ATResult<String>)
        ensures
            match r {
                Ok(out) => crate::command::command_spec(key@) is Ok && ({
                    let cv = crate::command::command_spec(key@)->Ok_0;
                    assoc_lookup(self@, cv.name) is Some && exists|k: nat|
                        times_count_ok(cv.times, k) && out@ == repeat_seq(
                            rendered(assoc_lookup(self@, cv.name)->Some_0, args.deep_view()),
                            k,
                        )
                }),
                Err(e) => match crate::command::command_spec(key@) {
                    Ok(cv) => assoc_lookup(self@, cv.name) is None && e@.kind
                        == ErrKind::SequenceNotExist(cv.name),
                    Err(k) => e@.kind == k,
                },
            },
    {
        match Command::from_str(key) {
            Ok(command) => self.get_sequence_cmd(&command, args),
            Err(e) => Err(e),
        }
    }

    /// The keys of the store, in store order.
    pub fn get_keys(&self) -> (r: Vec<String>)
        ensures
            r.deep_view() == assoc_keys(self@),
    {
        pairs_keys(&self.0)
    }

    /// Every validation error of the store's keys, one per invalid key, in
    /// store order; no error means every key is valid.
    pub fn get_errors(&self) -> (r: ATVecResult<()>)
        ensures
            match r {
                Ok(_) => Command::invalid_kinds(assoc_keys(self@)) =~= Seq::<ErrKind>::empty(),
                Err(errs) => errs@.map_values(|e: ErrAutoType| e@.kind) == Command::invalid_kinds(
                    assoc_keys(self@),
                ) && errs@.len() > 0,
            },
    {
        let keys = self.get_keys();
        Command::are_valid_names(&keys)
    }

    /// Whether every key of the store is a valid name.
    pub fn is_valid(&self) -> (r: bool)
        ensures
            r == forall|i: int| 0 <= i < self@.len() ==> valid_name_spec(#[trigger] self@[i].0),
    {
        let mut i: usize = 0;
        while i < self.0.len()
            invariant
                0 <= i <= self.0@.len(),
                forall|j: int| 0 <= j < i ==> valid_name_spec(#[trigger] self@[j].0),
            decreases self.0@.len() - i,
        {
            proof {
                assert(self@[i as int].0 == self.0@[i as int].0@);
            }
            if Command::valid_name(self.0[i].0.as_str()).is_err() {
                return false;
            }
            i = i + 1;
        }
        true
    }
}

/// Law: resolving under a fixed repetition `n` yields text whose length is
/// exactly `n` times the length of the once-rendered base text. The count
/// `k` and text `out` are those that the resolver's contract names.
pub proof fn lemma_fixed_repetition_length(n: usize, base: Seq<char>, out: Seq<char>, k: nat)
    requires
        times_count_ok(Some(Times::Number(n)), k),
        out == repeat_seq(base, k),
    ensures
        out.len() == n * base.len(),
{
    crate::text::lemma_repeat_seq_len(base, k);
}

/// Law: resolving under a range repetition `a..b` yields a whole multiple
/// of the base length, and the multiplier lies in `[a, b)` — or is exactly
/// `a` when the range is empty.
pub proof fn lemma_range_repetition_length(
    a: usize,
    b: usize,
    base: Seq<char>,
    out: Seq<char>,
    k: nat,
)
    requires
        times_count_ok(Some(Times::Range(a, b)), k),
        out == repeat_seq(base, k),
    ensures
        out.len() == k * base.len(),
        a <= k,
        a < b ==> k < b,
        a == b ==> k == a,
{
    crate::text::lemma_repeat_seq_len(base, k);
}

} // verus!
