use vstd::prelude::*;
use vstd::string::*;
use crate::names::str_eq;

verus! {

// ---------------------------------------------------------------------------
// Input trimming
// ---------------------------------------------------------------------------

/// Whitespace stripped from around typed input.
pub open spec fn is_space(c: char) -> bool {
    c == ' ' || c == '\t' || c == '\n' || c == '\r' || c == '\u{b}' || c == '\u{c}'
}

/// `s` without its leading whitespace.
pub open spec fn trim_start_spec(s: Seq<char>) -> Seq<char>
    decreases s.len(),
{
    if s.len() > 0 && is_space(s.first()) {
        trim_start_spec(s.drop_first())
    } else {
        s
    }
}

/// `s` without its trailing whitespace.
pub open spec fn trim_end_spec(s: Seq<char>) -> Seq<char>
    decreases s.len(),
{
    if s.len() > 0 && is_space(s.last()) {
        trim_end_spec(s.drop_last())
    } else {
        s
    }
}

/// `s` without surrounding whitespace.
pub open spec fn trim_spec(s: Seq<char>) -> Seq<char> {
    trim_end_spec(trim_start_spec(s))
}

proof fn lemma_trim_start(s: Seq<char>, lo: int)
    requires
        0 <= lo <= s.len(),
        forall|k: int| 0 <= k < lo ==> is_space(#[trigger] s[k]),
        lo == s.len() || !is_space(s[lo]),
    ensures
        trim_start_spec(s) == s.skip(lo),
    decreases lo,
{
    if lo == 0 {
        assert(s.skip(0) =~= s);
    } else {
        assert(is_space(s.first()));
        assert(s.drop_first() =~= s.skip(1));
        lemma_trim_start(s.skip(1), lo - 1);
        assert(s.skip(1).skip(lo - 1) =~= s.skip(lo));
    }
}

proof fn lemma_trim_end(s: Seq<char>, hi: int)
    requires
        0 <= hi <= s.len(),
        forall|k: int| hi <= k < s.len() ==> is_space(#[trigger] s[k]),
        hi == 0 || !is_space(s[hi - 1]),
    ensures
        trim_end_spec(s) == s.take(hi),
    decreases s.len() - hi,
{
    if hi == s.len() {
        assert(s.take(hi) =~= s);
    } else {
        assert(is_space(s.last()));
        lemma_trim_end(s.drop_last(), hi);
        assert(s.drop_last().take(hi) =~= s.take(hi));
    }
}

/// Removes surrounding whitespace from a typed line.
pub fn trim_input(s: &str) -> (r: String)
    ensures
        r@ == trim_spec(s@),
{
    let len = s.unicode_len();
    let mut lo: usize = 0;
    loop
        invariant
            0 <= lo <= len,
            len == s@.len(),
            forall|k: int| 0 <= k < lo ==> is_space(#[trigger] s@[k]),
        ensures
            0 <= lo <= len,
            forall|k: int| 0 <= k < lo ==> is_space(#[trigger] s@[k]),
            lo == len || !is_space(s@[lo as int]),
        decreases len - lo,
    {
        if lo == len {
            break ;
        }
        let c = s.get_char(lo);
        if !(c == ' ' || c == '\t' || c == '\n' || c == '\r' || c == '\u{b}' || c == '\u{c}') {
            break ;
        }
        lo += 1;
    }
    let mut hi: usize = len;
    loop
        invariant
            lo <= hi <= len,
            len == s@.len(),
            lo == len || !is_space(s@[lo as int]),
            forall|k: int| hi <= k < len ==> is_space(#[trigger] s@[k]),
        ensures
            lo <= hi <= len,
            forall|k: int| hi <= k < len ==> is_space(#[trigger] s@[k]),
            hi == lo || !is_space(s@[hi - 1]),
        decreases hi,
    {
        if hi == lo {
            break ;
        }
        let c = s.get_char(hi - 1);
        if !(c == ' ' || c == '\t' || c == '\n' || c == '\r' || c == '\u{b}' || c == '\u{c}') {
            break ;
        }
        hi -= 1;
    }
    let out = s.substring_char(lo, hi);
    proof {
        lemma_trim_start(s@, lo as int);
        let t = s@.skip(lo as int);
        assert forall|k: int| hi - lo <= k < t.len() implies is_space(#[trigger] t[k]) by {
            assert(t[k] == s@[k + lo]);
        }
        if hi > lo {
            assert(t[hi - lo - 1] == s@[hi - 1]);
        }
        lemma_trim_end(t, hi - lo);
        assert(t.take(hi - lo) =~= s@.subrange(lo as int, hi as int));
        assert(out@ =~= trim_spec(s@));
    }
    out.to_owned()
}

// ---------------------------------------------------------------------------
// The practice state machine
// ---------------------------------------------------------------------------

/// The phase of one practice round.
#[derive(Clone, Copy, PartialEq, Eq, Structural, Debug)]
pub enum SessionState {
    /// Waiting for the word at this index to be typed.
    AwaitingWord { index: usize },
    /// A word was mistyped; the round starts over at the first word.
    Mistake,
    /// Every word of the phrase was typed correctly.
    Completed,
}

/// The word index a state is waiting for.
pub open spec fn awaiting_index(st: SessionState) -> int {
    match st {
        SessionState::AwaitingWord { index } => index as int,
        _ => 0,
    }
}

/// One transition of the drill from the word at `index`: a typed line,
/// stripped of surrounding whitespace, either matches that word exactly
/// and advances (completing the round on the last word, which raises
/// the consecutive-success count by one) or is a mistake, which resets
/// the count to zero.
pub open spec fn session_step(
    phrase: Seq<Seq<char>>,
    index: int,
    successes: u32,
    input: Seq<char>,
) -> (SessionState, u32)
    recommends
        0 <= index < phrase.len(),
        successes < u32::MAX,
{
    if trim_spec(input) == phrase[index] {
        if index + 1 == phrase.len() {
            (SessionState::Completed, (successes + 1) as u32)
        } else {
            (SessionState::AwaitingWord { index: (index + 1) as usize }, successes)
        }
    } else {
        (SessionState::Mistake, 0u32)
    }
}

/// One interactive typing drill over a fixed phrase, tracking the
/// count of consecutive fully correct rounds.
pub struct PracticeSession {
    words: Vec<String>,
    state: SessionState,
    successes: u32,
}

impl PracticeSession {
    /// The target phrase being drilled.
    pub closed spec fn phrase_view(self) -> Seq<Seq<char>> {
        self.words.deep_view()
    }

    /// The current phase of the round.
    pub closed spec fn current_state(self) -> SessionState {
        self.state
    }

    /// Consecutive fully correct rounds since the session started.
    pub closed spec fn success_count(self) -> u32 {
        self.successes
    }

    /// The session drills a nonempty phrase and awaits a word it has.
    pub closed spec fn wf(self) -> bool {
        &&& self.words@.len() > 0
        &&& match self.state {
            SessionState::AwaitingWord { index } => index < self.words@.len(),
            _ => true,
        }
    }

    /// Starts a session over the given phrase, at its first word, with
    /// no successes yet.
    pub fn new(words: Vec<String>) -> (s: PracticeSession)
        requires
            words@.len() > 0,
        ensures
            s.wf(),
            s.phrase_view() == words.deep_view(),
            s.current_state() == (SessionState::AwaitingWord { index: 0usize }),
            s.success_count() == 0,
    {
        PracticeSession { words, state: SessionState::AwaitingWord { index: 0 }, successes: 0 }
    }

    /// The number of words in the phrase.
    pub fn word_count(&self) -> (r: usize)
        ensures
            r == self.phrase_view().len(),
    {
        self.words.len()
    }

    /// The word at the given index.
    pub fn word_at(&self, i: usize) -> (r: &String)
        requires
            i < self.phrase_view().len(),
        ensures
            r@ == self.phrase_view()[i as int],
    {
        &self.words[i]
    }

    /// The current phase of the round.
    pub fn state(&self) -> (r: SessionState)
        ensures
            r == self.current_state(),
    {
        self.state
    }

    /// Consecutive fully correct rounds so far.
    pub fn successes(&self) -> (r: u32)
        ensures
            r == self.success_count(),
    {
        self.successes
    }

    /// Feeds one typed line to the drill; the session moves as
    /// `session_step` says and the new phase is returned.
    pub fn submit(&mut self, input: &str) -> (r: SessionState)
        requires
            old(self).wf(),
            old(self).current_state() matches SessionState::AwaitingWord { .. },
            old(self).success_count() < u32::MAX,
        ensures
            final (self).wf(),
            final (self).phrase_view() == old(self).phrase_view(),
            ({
                let step = session_step(
                    old(self).phrase_view(),
                    awaiting_index(old(self).current_state()),
                    old(self).success_count(),
                    input@,
                );
                &&& final (self).current_state() == step.0
                &&& final (self).success_count() == step.1
                &&& r == step.0
            }),
    {
        let idx: usize = match self.state {
            SessionState::AwaitingWord { index } => index,
            _ => {
                proof {
                    assert(false);
                }
                0
            },
        };
        let trimmed = trim_input(input);
        proof {
            assert(self.words.deep_view()[idx as int] == self.words@[idx as int]@);
        }
        let matched = str_eq(trimmed.as_str(), self.words[idx].as_str());
        let n = self.words.len();
        assert(idx < n);
        if matched {
            if idx + 1 == n {
                self.state = SessionState::Completed;
                self.successes = self.successes + 1;
            } else {
                self.state = SessionState::AwaitingWord { index: idx + 1 };
            }
        } else {
            self.state = SessionState::Mistake;
            self.successes = 0;
        }
        self.state
    }

    /// Starts the next round over the same phrase: back to the first
    /// word, keeping the success count.
    pub fn restart(&mut self)
        requires
            old(self).wf(),
            !(old(self).current_state() matches SessionState::AwaitingWord { .. }),
        ensures
            final (self).wf(),
            final (self).phrase_view() == old(self).phrase_view(),
            final (self).current_state() == (SessionState::AwaitingWord { index: 0usize }),
            final (self).success_count() == old(self).success_count(),
    {
        self.state = SessionState::AwaitingWord { index: 0 };
    }
}

/// Where a whole round ends when the typed lines are fed in order from
/// the word at `index`: at the first mistake, or at completion.
pub open spec fn run_from(
    phrase: Seq<Seq<char>>,
    inputs: Seq<Seq<char>>,
    index: int,
    successes: u32,
) -> (SessionState, u32)
    recommends
        inputs.len() == phrase.len(),
        successes < u32::MAX,
    decreases phrase.len() - index,
{
    if 0 <= index < phrase.len() && index < inputs.len() {
        let step = session_step(phrase, index, successes, inputs[index]);
        if step.0 matches SessionState::AwaitingWord { .. } {
            run_from(phrase, inputs, index + 1, step.1)
        } else {
            step
        }
    } else {
        (SessionState::Mistake, 0u32)
    }
}

/// Typing every word of the phrase correctly, in order, ends the round
/// completed, with the consecutive-success count one higher.
pub proof fn lemma_round_completed(phrase: Seq<Seq<char>>, inputs: Seq<Seq<char>>, successes: u32)
    requires
        phrase.len() > 0,
        inputs.len() == phrase.len(),
        successes < u32::MAX,
        forall|k: int| 0 <= k < phrase.len() ==> trim_spec(#[trigger] inputs[k]) == phrase[k],
    ensures
        run_from(phrase, inputs, 0, successes) == (
            SessionState::Completed,
            (successes + 1) as u32,
        ),
{
    lemma_run_completed_from(phrase, inputs, successes, 0);
}

proof fn lemma_run_completed_from(
    phrase: Seq<Seq<char>>,
    inputs: Seq<Seq<char>>,
    successes: u32,
    index: int,
)
    requires
        phrase.len() > 0,
        inputs.len() == phrase.len(),
        successes < u32::MAX,
        0 <= index < phrase.len(),
        forall|k: int| index <= k < phrase.len() ==> trim_spec(#[trigger] inputs[k]) == phrase[k],
    ensures
        run_from(phrase, inputs, index, successes) == (
            SessionState::Completed,
            (successes + 1) as u32,
        ),
    decreases phrase.len() - index,
{
    if index + 1 == phrase.len() {
    } else {
        lemma_run_completed_from(phrase, inputs, successes, index + 1);
    }
}

/// A mistyped word ends the round in a mistake with the count reset,
/// however many words were typed correctly before it.
pub proof fn lemma_round_mistake(
    phrase: Seq<Seq<char>>,
    inputs: Seq<Seq<char>>,
    successes: u32,
    j: int,
)
    requires
        phrase.len() > 0,
        inputs.len() == phrase.len(),
        successes < u32::MAX,
        0 <= j < phrase.len(),
        forall|k: int| 0 <= k < j ==> trim_spec(#[trigger] inputs[k]) == phrase[k],
        trim_spec(inputs[j]) != phrase[j],
    ensures
        run_from(phrase, inputs, 0, successes) == (SessionState::Mistake, 0u32),
{
    lemma_run_mistake_from(phrase, inputs, successes, j, 0);
}

proof fn lemma_run_mistake_from(
    phrase: Seq<Seq<char>>,
    inputs: Seq<Seq<char>>,
    successes: u32,
    j: int,
    index: int,
)
    requires
        phrase.len() > 0,
        inputs.len() == phrase.len(),
        successes < u32::MAX,
        0 <= index <= j < phrase.len(),
        forall|k: int| index <= k < j ==> trim_spec(#[trigger] inputs[k]) == phrase[k],
        trim_spec(inputs[j]) != phrase[j],
    ensures
        run_from(phrase, inputs, index, successes) == (SessionState::Mistake, 0u32),
    decreases j - index,
{
    if index == j {
    } else {
        lemma_run_mistake_from(phrase, inputs, successes, j, index + 1);
    }
}

} // verus!
