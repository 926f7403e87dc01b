//! Command tokens: a name plus an optional repetition specifier.
//!
//! A token such as `A3` or `B2..5` splits at its first ASCII digit into a
//! name, which must consist of letters only, and a repetition suffix: either
//! a fixed count or a half-open range from which a count is drawn at
//! resolution time.

use vstd::prelude::*;

use crate::chars::{
    all_ascii_digits, char_is_alpha, digits_of, digits_val, is_alphabetic_char, is_ascii_digit,
    is_ascii_digit_char, parse_usize,
};
use crate::error::{ATResult, ATVecResult, ErrAutoType, ErrKind, ErrType};
use crate::text::{chars_string, str_chars, subvec, usize_string};

verus! {

/// Number of repetitions: a fixed count, or a half-open range of counts.
#[derive(Clone, Copy, Debug, PartialEq, Eq, Structural)]
pub enum Times {
    Number(usize),
    Range(usize, usize),
}

/// The mathematical value of a command: its name as a character sequence
/// and its repetition specifier.
pub struct CommandView {
    pub name: Seq<char>,
    pub times: Option<Times>,
}

/// Basic structure containing name and number of repetitions.
#[derive(Debug)]
pub struct Command {
    pub name: String,
    pub times: Option<Times>,
}

impl View for Command {
    type V = CommandView;

    open spec fn view(&self) -> CommandView {
        CommandView { name: self.name@, times: self.times }
    }
}

impl PartialEq for Command {
    fn eq(&self, other: &Self) -> (r: bool) {
        self.name == other.name && match (self.times, other.times) {
            (None, None) => true,
            (Some(a), Some(b)) => a == b,
            _ => false,
        }
    }
}

impl vstd::std_specs::cmp::PartialEqSpecImpl for Command {
    open spec fn obeys_eq_spec() -> bool {
        true
    }

    open spec fn eq_spec(&self, other: &Self) -> bool {
        self@ == other@
    }
}

/// A well-formed range runs upward: its start does not exceed its end.
pub open spec fn times_wf(t: Option<Times>) -> bool {
    match t {
        Some(Times::Range(a, b)) => a <= b,
        _ => true,
    }
}

/// The repetition counts that a specifier allows: exactly the fixed count,
/// one for a missing specifier, and any count in `[a, b)` for a range —
/// degenerately `a` itself when the range `a..a` is empty.
pub open spec fn times_count_ok(t: Option<Times>, k: nat) -> bool {
    match t {
        None => k == 1,
        Some(Times::Number(n)) => k == n,
        Some(Times::Range(a, b)) => if a < b {
            a <= k < b
        } else {
            k == a
        },
    }
}

/// A valid name is non-empty and consists of letters only.
pub open spec fn valid_name_spec(s: Seq<char>) -> bool {
    s.len() > 0 && forall|i: int| 0 <= i < s.len() ==> char_is_alpha(#[trigger] s[i])
}

/// The error a name failing validation is reported with.
pub open spec fn name_error_kind(s: Seq<char>) -> ErrKind {
    if s.len() == 0 {
        ErrKind::KeyCannotBeEmpty
    } else {
        ErrKind::InvalidKeyFormat(s)
    }
}

/// Index of the first ASCII digit in `s`, or `s.len()` if there is none.
pub open spec fn first_digit_idx(s: Seq<char>) -> int
    decreases s.len(),
{
    if s.len() == 0 {
        0
    } else if is_ascii_digit_char(s[0]) {
        0
    } else {
        1 + first_digit_idx(s.drop_first())
    }
}

/// `first_digit_idx` is the one position with no digit before it that is
/// either a digit or the end of the text.
pub proof fn lemma_first_digit_idx(s: Seq<char>, i: int)
    requires
        0 <= i <= s.len(),
        forall|j: int| 0 <= j < i ==> !is_ascii_digit_char(#[trigger] s[j]),
        i < s.len() ==> is_ascii_digit_char(s[i]),
    ensures
        first_digit_idx(s) == i,
    decreases s.len(),
{
    if s.len() == 0 {
    } else if is_ascii_digit_char(s[0]) {
        assert(i == 0);
    } else {
        assert(i >= 1) by {
            assert(i == 0 ==> is_ascii_digit_char(s[0]));
        }
        let t = s.drop_first();
        assert forall|j: int| 0 <= j < i - 1 implies !is_ascii_digit_char(#[trigger] t[j]) by {
            assert(t[j] == s[j + 1]);
        }
        assert(i - 1 < t.len() ==> is_ascii_digit_char(t[i - 1])) by {
            if i - 1 < t.len() {
                assert(t[i - 1] == s[i]);
            }
        }
        lemma_first_digit_idx(t, i - 1);
    }
}

/// Two consecutive dots start at position `k` of `s`.
pub open spec fn is_dotdot_at(s: Seq<char>, k: int) -> bool {
    0 <= k && k + 2 <= s.len() && s[k] == '.' && s[k + 1] == '.'
}

/// Position of the first `..` in `s`, if any.
pub open spec fn find_dotdot(s: Seq<char>) -> Option<int>
    decreases s.len(),
{
    if s.len() < 2 {
        None
    } else if s[0] == '.' && s[1] == '.' {
        Some(0)
    } else {
        match find_dotdot(s.drop_first()) {
            Some(k) => Some(k + 1),
            None => None,
        }
    }
}

/// The first `..` of `s` is at `k` exactly when `..` stands there and at no
/// earlier position.
pub proof fn lemma_find_dotdot_some(s: Seq<char>, k: int)
    requires
        is_dotdot_at(s, k),
        forall|j: int| 0 <= j < k ==> !is_dotdot_at(s, j),
    ensures
        find_dotdot(s) == Some(k),
    decreases s.len(),
{
    if s[0] == '.' && s[1] == '.' {
        assert(is_dotdot_at(s, 0));
        assert(k == 0);
    } else {
        assert(k >= 1) by {
            assert(!(s[0] == '.' && s[1] == '.'));
        }
        let t = s.drop_first();
        assert(is_dotdot_at(t, k - 1)) by {
            assert(t[k - 1] == s[k]);
            assert(t[k] == s[k + 1]);
        }
        assert forall|j: int| 0 <= j < k - 1 implies !is_dotdot_at(t, j) by {
            assert(!is_dotdot_at(s, j + 1));
            assert(t[j] == s[j + 1]);
            if j + 3 <= s.len() {
                assert(t[j + 1] == s[j + 2]);
            }
        }
        lemma_find_dotdot_some(t, k - 1);
    }
}

/// When no position of `s` holds `..`, none is found.
pub proof fn lemma_find_dotdot_none(s: Seq<char>)
    requires
        forall|j: int| !is_dotdot_at(s, j),
    ensures
        find_dotdot(s) is None,
    decreases s.len(),
{
    if s.len() < 2 {
    } else {
        assert(!is_dotdot_at(s, 0));
        let t = s.drop_first();
        assert forall|j: int| !is_dotdot_at(t, j) by {
            if 0 <= j && j + 2 <= t.len() {
                assert(t[j] == s[j + 1]);
                assert(t[j + 1] == s[j + 2]);
                assert(!is_dotdot_at(s, j + 1));
            }
        }
        lemma_find_dotdot_none(t);
    }
}

/// Non-empty, all ASCII digits, and small enough to be a count.
pub open spec fn num_ok(s: Seq<char>) -> bool {
    s.len() > 0 && all_ascii_digits(s) && digits_val(s) <= usize::MAX
}

/// What parsing a repetition suffix yields: a fixed count when the whole
/// suffix is a number; otherwise a range split at the first `..`, empty
/// ranges rejected with their own error; anything else malformed.
pub open spec fn times_spec(s: Seq<char>) -> Result<Times, ErrKind> {
    if num_ok(s) {
        Ok(Times::Number(digits_val(s) as usize))
    } else {
        match find_dotdot(s) {
            Some(k) => {
                let l = s.take(k);
                let r = s.skip(k + 2);
                if num_ok(l) && num_ok(r) {
                    if digits_val(l) <= digits_val(r) {
                        Ok(Times::Range(digits_val(l) as usize, digits_val(r) as usize))
                    } else {
                        Err(ErrKind::RangeMustNotBeEmpty(digits_val(l), digits_val(r)))
                    }
                } else {
                    Err(ErrKind::WrongSequenceArg(s))
                }
            },
            None => Err(ErrKind::WrongSequenceArg(s)),
        }
    }
}

/// What parsing a whole token yields: the part before the first ASCII digit
/// is the name, which must validate; the rest, if any, is the repetition
/// suffix.
pub open spec fn command_spec(s: Seq<char>) -> Result<CommandView, ErrKind> {
    let i = first_digit_idx(s);
    if i == s.len() {
        if valid_name_spec(s) {
            Ok(CommandView { name: s, times: None })
        } else {
            Err(name_error_kind(s))
        }
    } else {
        let name = s.take(i);
        if valid_name_spec(name) {
            match times_spec(s.skip(i)) {
                Ok(t) => Ok(CommandView { name, times: Some(t) }),
                Err(k) => Err(k),
            }
        } else {
            Err(name_error_kind(name))
        }
    }
}

/// Relies on `rand::Rng::gen_range` over `rand::thread_rng()`: returns a
/// value of the non-empty range `[start, end)`; which one is up to the
/// generator.
#[verifier::external_body]
fn gen_range_usize(start: usize, end: usize) -> (r: usize)
    requires
        start < end,
    ensures
        start <= r < end,
{
    <rand::rngs::ThreadRng as rand::Rng>::gen_range(&mut rand::thread_rng(), start..end)
}

impl Times {
    /// Parse a repetition suffix held in a character vector.
    pub fn from_chars(v: &Vec<char>) -> (r: ATResult<Times>)
        ensures
            match r {
                Ok(t) => times_spec(v@) == Ok::<Times, ErrKind>(t),
                Err(e) => times_spec(v@) == Err::<Times, ErrKind>(e@.kind) && e@.message is None,
            },
    {
        if let Some(n) = parse_usize(v) {
            return Ok(Times::Number(n));
        }
        if v.len() < 2 {
            proof {
                lemma_find_dotdot_none(v@);
            }
            return Err(ErrAutoType::new(ErrType::WrongSequenceArg(chars_string(v))));
        }
        let mut k: usize = 0;
        while k < v.len() - 1 && !(v[k] == '.' && v[k + 1] == '.')
            invariant
                v@.len() >= 2,
                0 <= k <= v@.len() - 1,
                forall|j: int| 0 <= j < k ==> !is_dotdot_at(v@, j),
            decreases v@.len() - k,
        {
            k = k + 1;
        }
        if k == v.len() - 1 {
            proof {
                assert forall|j: int| !is_dotdot_at(v@, j) by {
                    if 0 <= j && j + 2 <= v@.len() {
                        assert(j < k);
                    }
                }
                lemma_find_dotdot_none(v@);
            }
            return Err(ErrAutoType::new(ErrType::WrongSequenceArg(chars_string(v))));
        }
        proof {
            lemma_find_dotdot_some(v@, k as int);
        }
        let left = subvec(v, 0, k);
        let right = subvec(v, k + 2, v.len());
        proof {
            assert(left@ =~= v@.take(k as int));
            assert(right@ =~= v@.skip(k as int + 2));
        }
        match (parse_usize(&left), parse_usize(&right)) {
            (Some(start), Some(end)) => {
                if start <= end {
                    Ok(Times::Range(start, end))
                } else {
                    Err(ErrAutoType::new(ErrType::RangeMustNotBeEmpty(start, end)))
                }
            },
            _ => Err(ErrAutoType::new(ErrType::WrongSequenceArg(chars_string(v)))),
        }
    }

    /// Parse a repetition suffix such as `5` or `3..7`.
    pub fn from_str(s: &str) -> (r: ATResult<Times>)
        ensures
            match r {
                Ok(t) => times_spec(s@) == Ok::<Times, ErrKind>(t),
                Err(e) => times_spec(s@) == Err::<Times, ErrKind>(e@.kind) && e@.message is None,
            },
    {
        let v = str_chars(s);
        Times::from_chars(&v)
    }

    /// The text form of the specifier: the count, or `start..end`.
    pub open spec fn text(self) -> Seq<char> {
        match self {
            Times::Number(n) => digits_of(n as nat),
            Times::Range(a, b) => digits_of(a as nat) + seq!['.', '.'] + digits_of(b as nat),
        }
    }

    /// Render the specifier back to its text form.
    pub fn render(&self) -> (r: String)
        ensures
            r@ == self.text(),
    {
        match self {
            Times::Number(n) => usize_string(*n),
            Times::Range(a, b) => {
                let mut out = usize_string(*a);
                crate::text::push_char(&mut out, '.');
                crate::text::push_char(&mut out, '.');
                let bs = usize_string(*b);
                out.append(bs.as_str());
                proof {
                    assert(digits_of(*a as nat).push('.').push('.') + digits_of(*b as nat)
                        =~= digits_of(*a as nat) + seq!['.', '.'] + digits_of(*b as nat));
                }
                out
            },
        }
    }
}

/// Text of an optional repetition specifier: empty when there is none.
pub open spec fn times_text(t: Option<Times>) -> Seq<char> {
    match t {
        None => Seq::empty(),
        Some(t) => t.text(),
    }
}

impl Command {
    /// A command to be run once: no repetition specifier.
    /// The name is taken as given and need not be valid.
    pub fn new(name: &str) -> (r: Command)
        ensures
            r@.name == name@,
            r@.times is None,
    {
        Command { name: name.to_owned(), times: None }
    }

    /// A command with a fixed number of repetitions.
    /// The name is taken as given and need not be valid.
    pub fn new_number(name: &str, num: usize) -> (r: Command)
        ensures
            r@.name == name@,
            r@.times == Some(Times::Number(num)),
    {
        Command { name: name.to_owned(), times: Some(Times::Number(num)) }
    }

    /// A command whose number of repetitions is drawn from the half-open
    /// range `[start, end)` at each resolution.
    /// The name is taken as given and need not be valid.
    pub fn new_range(name: &str, start: usize, end: usize) -> (r: Command)
        requires
            start <= end,
        ensures
            r@.name == name@,
            r@.times == Some(Times::Range(start, end)),
    {
        Command { name: name.to_owned(), times: Some(Times::Range(start, end)) }
    }

    /// Whether this command is well formed: any range in it runs upward.
    pub open spec fn wf(&self) -> bool {
        times_wf(self.times)
    }

    /// Check that `self` has a valid name.
    pub fn valid(&self) -> (r: ATResult<()>)
        ensures
            match r {
                Ok(_) => valid_name_spec(self@.name),
                Err(e) => !valid_name_spec(self@.name) && e@.kind == name_error_kind(self@.name)
                    && e@.message is None,
            },
    {
        Command::valid_name(self.name.as_str())
    }

    /// Check that `name` is valid: non-empty and letters only. An empty
    /// name and one holding a non-letter are rejected with distinct errors.
    pub fn valid_name(name: &str) -> (r: ATResult<()>)
        ensures
            match r {
                Ok(_) => valid_name_spec(name@),
                Err(e) => !valid_name_spec(name@) && e@.kind == name_error_kind(name@)
                    && e@.message is None,
            },
    {
        let n = name.unicode_len();
        if n == 0 {
            return Err(ErrAutoType::new(ErrType::KeyCannotBeEmpty));
        }
        let mut i: usize = 0;
        while i < n
            invariant
                n == name@.len(),
                0 <= i <= n,
                forall|j: int| 0 <= j < i ==> char_is_alpha(#[trigger] name@[j]),
            decreases n - i,
        {
            if !is_alphabetic_char(name.get_char(i)) {
                return Err(ErrAutoType::new(ErrType::InvalidKeyFormat(name.to_owned())));
            }
            i = i + 1;
        }
        Ok(())
    }

    /// The validation errors of a list of names, in order; empty names and
    /// malformed names each contribute their own error.
    pub open spec fn invalid_kinds(names: Seq<Seq<char>>) -> Seq<ErrKind>
        decreases names.len(),
    {
        if names.len() == 0 {
            Seq::empty()
        } else if valid_name_spec(names.last())  {
            Self::invalid_kinds(names.drop_last())
        } else {
            Self::invalid_kinds(names.drop_last()).push(name_error_kind(names.last()))
        }
    }

    /// Check every name of `names`; collect one error for each invalid one
    /// rather than stopping at the first.
    pub fn are_valid_names(names: &Vec<String>) -> (r: ATVecResult<()>)
        ensures
            match r {
                Ok(_) => Self::invalid_kinds(names.deep_view()) =~= Seq::<ErrKind>::empty(),
                Err(errs) => errs@.map_values(|e: ErrAutoType| e@.kind) == Self::invalid_kinds(
                    names.deep_view(),
                ) && errs@.len() > 0,
            },
    {
        let mut errs: Vec<ErrAutoType> = Vec::new();
        let mut i: usize = 0;
        while i < names.len()
            invariant
                0 <= i <= names@.len(),
                errs@.map_values(|e: ErrAutoType| e@.kind) == Self::invalid_kinds(
                    names.deep_view().take(i as int),
                ),
            decreases names@.len() - i,
        {
            let ghost pre = names.deep_view().take(i as int);
            proof {
                assert(names.deep_view().take(i as int + 1).drop_last() =~= pre);
                assert(names.deep_view().take(i as int + 1).last() == names.deep_view()[i as int]);
                assert(names.deep_view()[i as int] == names@[i as int]@);
            }
            match Command::valid_name(names[i].as_str()) {
                Ok(_) => {
                    proof {
                        assert(errs@.map_values(|e: ErrAutoType| e@.kind) == Self::invalid_kinds(
                            names.deep_view().take(i as int + 1),
                        ));
                    }
                },
                Err(e) => {
                    errs.push(e);
                    proof {
                        assert(errs@.map_values(|e: ErrAutoType| e@.kind) =~= Self::invalid_kinds(
                            names.deep_view().take(i as int + 1),
                        ));
                    }
                },
            }
            i = i + 1;
        }
        proof {
            assert(names.deep_view().take(names@.len() as int) =~= names.deep_view());
        }
        if errs.len() == 0 {
            Ok(())
        } else {
            Err(errs)
        }
    }

    /// The number of repetitions this command asks for; for a range, one
    /// allowed count is drawn from it.
    pub fn get_times(&self) -> (r: usize)
        requires
            self.wf(),
        ensures
            times_count_ok(self@.times, r as nat),
    {
        match self.times {
            Some(Times::Number(n)) => n,
            Some(Times::Range(a, b)) => if a < b {
                gen_range_usize(a, b)
            } else {
                a
            },
            None => 1,
        }
    }

    /// The name of the command.
    pub fn get_name(&self) -> (r: &str)
        ensures
            r@ == self@.name,
    {
        self.name.as_str()
    }

    /// Parse a command token: the part before the first ASCII digit is the
    /// name, the rest the repetition suffix.
    pub fn from_str(s: &str) -> (r: ATResult<Command>)
        ensures
            match r {
                Ok(c) => command_spec(s@) == Ok::<CommandView, ErrKind>(c@) && c.wf(),
                Err(e) => command_spec(s@) == Err::<CommandView, ErrKind>(e@.kind)
                    && e@.message is None,
            },
    {
        let v = str_chars(s);
        let n = v.len();
        let mut i: usize = 0;
        while i < n && !is_ascii_digit(v[i])
            invariant
                v@ == s@,
                n == v@.len(),
                0 <= i <= n,
                forall|j: int| 0 <= j < i ==> !is_ascii_digit_char(#[trigger] v@[j]),
            decreases n - i,
        {
            i = i + 1;
        }
        proof {
            lemma_first_digit_idx(s@, i as int);
        }
        if i == n {
            match Command::valid_name(s) {
                Ok(_) => Ok(Command { name: s.to_owned(), times: None }),
                Err(e) => Err(e),
            }
        } else {
            let name_chars = subvec(&v, 0, i);
            let name = chars_string(&name_chars);
            match Command::valid_name(name.as_str()) {
                Ok(_) => {
                    let suffix = subvec(&v, i, n);
                    proof {
                        assert(suffix@ =~= s@.skip(i as int));
                    }
                    match Times::from_chars(&suffix) {
                        Ok(t) => Ok(Command { name, times: Some(t) }),
                        Err(e) => Err(e),
                    }
                },
                Err(e) => Err(e),
            }
        }
    }

    /// Render the command back to its text form: the name followed by the
    /// repetition suffix, if any.
    pub fn render(&self) -> (r: String)
        ensures
            r@ == self@.name + times_text(self@.times),
    {
        let mut out = self.name.clone();
        match &self.times {
            None => {
                proof {
                    assert(self.name@ + Seq::<char>::empty() =~= self.name@);
                }
            },
            Some(t) => {
                let ts = t.render();
                out.append(ts.as_str());
            },
        }
        out
    }
}

/// Law: a valid name parses as a command of that name to be run once, with
/// no repetition specifier. Names holding an ASCII digit are not covered:
/// the parser splits there and reads the tail as a repetition suffix.
pub proof fn lemma_parse_valid_name(s: Seq<char>)
    requires
        s.len() > 0,
        forall|i: int|
            0 <= i < s.len() ==> char_is_alpha(#[trigger] s[i]) && !is_ascii_digit_char(s[i]),
    ensures
        command_spec(s) == Ok::<CommandView, ErrKind>(CommandView { name: s, times: None }),
{
    lemma_first_digit_idx(s, s.len() as int);
}

/// Law: rendering a command and parsing the text gives the command back.
/// It holds of every well-formed command whose name is valid and free of
/// ASCII digits; with a digit in the name the parser would split there.
pub proof fn lemma_parse_render_roundtrip(c: Command)
    requires
        c.wf(),
        c@.name.len() > 0,
        forall|i: int|
            0 <= i < c@.name.len() ==> char_is_alpha(#[trigger] c@.name[i]) && !is_ascii_digit_char(
                c@.name[i],
            ),
    ensures
        command_spec(c@.name + times_text(c@.times)) == Ok::<CommandView, ErrKind>(c@),
{
    let name = c@.name;
    let s = name + times_text(c@.times);
    let n = name.len() as int;
    match c@.times {
        None => {
            assert(s =~= name);
            lemma_parse_valid_name(name);
        },
        Some(t) => {
            let suffix = times_text(c@.times);
            assert(suffix.len() > 0 && is_ascii_digit_char(suffix[0]) && all_ascii_digits(suffix)
                == all_ascii_digits(suffix)) by {
                match t {
                    Times::Number(m) => {
                        crate::chars::lemma_digits_of_val(m as nat);
                    },
                    Times::Range(a, b) => {
                        crate::chars::lemma_digits_of_val(a as nat);
                        assert(suffix[0] == digits_of(a as nat)[0]);
                    },
                }
            }
            assert forall|j: int| 0 <= j < n implies !is_ascii_digit_char(#[trigger] s[j]) by {
                assert(s[j] == name[j]);
            }
            assert(is_ascii_digit_char(s[n])) by {
                assert(s[n] == suffix[0]);
            }
            lemma_first_digit_idx(s, n);
            assert(s.take(n) =~= name);
            assert(s.skip(n) =~= suffix);
            match t {
                Times::Number(m) => {
                    crate::chars::lemma_digits_of_val(m as nat);
                    assert(num_ok(suffix));
                    assert(times_spec(suffix) == Ok::<Times, ErrKind>(Times::Number(m)));
                },
                Times::Range(a, b) => {
                    crate::chars::lemma_digits_of_val(a as nat);
                    crate::chars::lemma_digits_of_val(b as nat);
                    let da = digits_of(a as nat);
                    let db = digits_of(b as nat);
                    let k = da.len() as int;
                    assert(!num_ok(suffix)) by {
                        assert(suffix[k] == '.');
                        assert(!is_ascii_digit_char('.'));
                    }
                    assert(is_dotdot_at(suffix, k)) by {
                        assert(suffix[k] == '.');
                        assert(suffix[k + 1] == '.');
                    }
                    assert forall|j: int| 0 <= j < k implies !is_dotdot_at(suffix, j) by {
                        assert(suffix[j] == da[j]);
                        assert(is_ascii_digit_char(da[j]));
                    }
                    lemma_find_dotdot_some(suffix, k);
                    assert(suffix.take(k) =~= da);
                    assert(suffix.skip(k + 2) =~= db);
                    assert(num_ok(da) && num_ok(db));
                    assert(times_spec(suffix) == Ok::<Times, ErrKind>(Times::Range(a, b)));
                },
            }
        },
    }
}

} // verus!
