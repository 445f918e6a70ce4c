//! The typing-session state machine.
//!
//! A `Game` owns a fixed target text and scores a stream of keystrokes
//! against it: per-character correctness, a running mistake count, and,
//! once finished, derived statistics. Timestamps are injected by the
//! caller as milliseconds, so the whole machine is deterministic.

use vstd::prelude::*;
use vstd::string::StrSliceExecFns;
use vstd::string::StringExecFns;

verus! {

/// Lifecycle of one session. `Finished` is terminal: no operation of this
/// module leaves it.
#[derive(Clone, Copy, Debug, PartialEq, Eq, Structural)]
pub enum GameState {
    Stopped,
    /// Running since the contained timestamp (milliseconds).
    Running(u64),
    Finished {
        elapsed_ms: u64,
        wpm: usize,
        cpm: usize,
        word_count: usize,
        mistakes: usize,
        /// Whole percent, clamped to 0..=100.
        accuracy: usize,
    },
}

/// Characters per minute over the whole target, by integer arithmetic:
/// `chars * 60000 / elapsed_ms`, truncated, clamped to `usize::MAX`,
/// and 0 when no time has elapsed.
pub open spec fn cpm_of(chars: int, elapsed_ms: int) -> int {
    if elapsed_ms <= 0 {
        0
    } else if chars * 60000 / elapsed_ms > usize::MAX {
        usize::MAX as int
    } else {
        chars * 60000 / elapsed_ms
    }
}

/// Words per minute: characters per minute over the conventional five
/// characters per word.
pub open spec fn wpm_of(chars: int, elapsed_ms: int) -> int {
    cpm_of(chars, elapsed_ms) / 5
}

/// Accuracy in whole percent: `100 - 100 * mistakes / chars`, truncated
/// and clamped to 0..=100; an empty target counts as fully accurate.
pub open spec fn accuracy_of(mistakes: int, chars: int) -> int {
    if chars <= 0 {
        100
    } else if mistakes >= chars {
        0
    } else {
        (chars - mistakes) * 100 / chars
    }
}

/// The words joined by single spaces.
pub open spec fn join_words(ws: Seq<Seq<char>>) -> Seq<char>
    decreases ws.len(),
{
    if ws.len() == 0 {
        Seq::empty()
    } else if ws.len() == 1 {
        ws[0]
    } else {
        ws[0] + seq![' '] + join_words(ws.drop_first())
    }
}

/// Length of the run of consecutive non-space characters of `t` starting
/// at position `i`.
pub open spec fn word_run(t: Seq<char>, i: int) -> int
    decreases t.len() - i,
{
    if i < 0 || i >= t.len() || t[i] == ' ' {
        0
    } else {
        1 + word_run(t, i + 1)
    }
}

/// How many characters at the end of `s` are spaces.
pub open spec fn trailing_spaces(s: Seq<char>) -> int
    decreases s.len(),
{
    if s.len() == 0 || s.last() != ' ' {
        0
    } else {
        1 + trailing_spaces(s.drop_last())
    }
}

/// How many characters at the end of `s` are not spaces.
pub open spec fn trailing_nonspaces(s: Seq<char>) -> int
    decreases s.len(),
{
    if s.len() == 0 || s.last() == ' ' {
        0
    } else {
        1 + trailing_nonspaces(s.drop_last())
    }
}

/// What one backspace leaves: nothing changes on an empty buffer, a
/// trailing space run is removed whole, and otherwise the last character
/// alone goes.
pub open spec fn pop_spec(s: Seq<char>) -> Seq<char> {
    if s.len() == 0 {
        s
    } else if s.last() != ' ' {
        s.drop_last()
    } else {
        s.take(s.len() - trailing_spaces(s))
    }
}

/// What one word-delete leaves: the trailing spaces and the non-space
/// run before them are removed in one call.
pub open spec fn pop_word_spec(s: Seq<char>) -> Seq<char> {
    let unpadded = s.take(s.len() - trailing_spaces(s));
    unpadded.take(unpadded.len() - trailing_nonspaces(unpadded))
}

/// Appending one more word to a join adds a separating space first,
/// unless the join was empty.
pub proof fn lemma_join_push(ws: Seq<Seq<char>>)
    requires
        ws.len() >= 1,
    ensures
        join_words(ws) == if ws.len() == 1 {
            ws.last()
        } else {
            join_words(ws.drop_last()) + seq![' '] + ws.last()
        },
    decreases ws.len(),
{
    if ws.len() == 1 {
        assert(join_words(ws) == ws[0]);
    } else if ws.len() == 2 {
        assert(ws.drop_first() =~= seq![ws[1]]);
        assert(ws.drop_last() =~= seq![ws[0]]);
        assert(join_words(ws.drop_first()) == ws[1]);
        assert(join_words(ws.drop_last()) == ws[0]);
        assert(join_words(ws) == ws[0] + seq![' '] + ws[1]);
        assert(join_words(ws) =~= join_words(ws.drop_last()) + seq![' '] + ws.last());
    } else {
        lemma_join_push(ws.drop_first());
        assert(ws.drop_first().len() >= 2);
        assert(ws.drop_first().drop_last() =~= ws.drop_last().drop_first());
        assert(ws.drop_first().last() == ws.last());
        assert(join_words(ws.drop_first()) == join_words(ws.drop_last().drop_first()) + seq![' ']
            + ws.last());
        assert(join_words(ws) == ws[0] + seq![' '] + (join_words(ws.drop_last().drop_first())
            + seq![' '] + ws.last()));
        assert(ws.drop_last().len() >= 2);
        assert(ws.drop_last()[0] == ws[0]);
        assert(join_words(ws.drop_last()) == ws[0] + seq![' '] + join_words(
            ws.drop_last().drop_first(),
        ));
        assert(join_words(ws) =~= join_words(ws.drop_last()) + seq![' '] + ws.last());
    }
}

/// One typing session.
pub struct Game {
    /// The target text, as a string, for display.
    pub text: String,
    /// The target text as characters; the canonical form the logic reads.
    pub text_chars: Vec<char>,
    pub state: GameState,
    /// Everything typed so far that is still standing.
    pub input: Vec<char>,
    pub mistakes: usize,
    pub word_count: usize,
    pub strict: bool,
    pub skip_word_on_space: bool,
}

impl Game {
    /// The target text as a character sequence.
    pub open spec fn target(self) -> Seq<char> {
        self.text_chars@
    }

    /// The next position to be typed.
    pub open spec fn cursor(self) -> int {
        self.input@.len() as int
    }

    /// Well-formedness: the display string matches the character vector,
    /// and the buffer never outgrows the target by more than the one
    /// transient overshoot character.
    pub open spec fn wf(self) -> bool {
        &&& self.text@ == self.text_chars@
        &&& self.input@.len() <= self.text_chars@.len() + 1
    }

    /// The state after the timer restamp that an empty buffer triggers.
    pub open spec fn restamped(self, now_ms: u64) -> GameState {
        if self.input@.len() == 0 {
            GameState::Running(now_ms)
        } else {
            self.state
        }
    }

    /// The state `finish` moves to: statistics are derived exactly once,
    /// at the `Running` to `Finished` transition; any other state stays.
    pub open spec fn finish_spec(self, now_ms: u64) -> GameState {
        match self.state {
            GameState::Running(start) => {
                let elapsed = now_ms.saturating_sub(start);
                GameState::Finished {
                    elapsed_ms: elapsed,
                    wpm: wpm_of(self.text_chars@.len() as int, elapsed as int) as usize,
                    cpm: cpm_of(self.text_chars@.len() as int, elapsed as int) as usize,
                    word_count: self.word_count,
                    mistakes: self.mistakes,
                    accuracy: accuracy_of(self.mistakes as int, self.text_chars@.len() as int) as usize,
                }
            },
            _ => self.state,
        }
    }

    /// Builds a session over the given words joined by single spaces,
    /// with an empty buffer, no mistakes, and the clock running from
    /// `now_ms`.
    pub fn new(words: &Vec<String>, strict: bool, skip_word_on_space: bool, now_ms: u64) -> (g:
        Game)
        ensures
            g.wf(),
            g.text_chars@ == join_words(words@.map_values(|w: String| w@)),
            g.text@ == g.text_chars@,
            g.input@ == Seq::<char>::empty(),
            g.mistakes == 0,
            g.word_count == words@.len(),
            g.state == GameState::Running(now_ms),
            g.strict == strict,
            g.skip_word_on_space == skip_word_on_space,
    {
        let ghost ws = words@.map_values(|w: String| w@);
        let word_count = words.len();
        let mut text = String::new();
        let mut i: usize = 0;
        while i < words.len()
            invariant
                i <= words.len(),
                ws == words@.map_values(|w: String| w@),
                text@ == join_words(ws.take(i as int)),
            decreases words.len() - i,
        {
            if i > 0 {
                text.append(" ");
            }
            text.append(words[i].as_str());
            proof {
                assert(ws.take(i + 1).drop_last() =~= ws.take(i as int));
                assert(ws.take(i + 1).last() == ws[i as int]);
                lemma_join_push(ws.take(i + 1));
                if i > 0 {
                    reveal_strlit(" ");
                    assert(join_words(ws.take(i as int)) + " "@ + ws[i as int] =~= join_words(
                        ws.take(i as int),
                    ) + seq![' '] + ws[i as int]);
                }
            }
            i = i + 1;
        }
        proof {
            assert(ws.take(words@.len() as int) =~= ws);
        }
        let mut text_chars: Vec<char> = Vec::new();
        let n = text.as_str().unicode_len();
        let mut j: usize = 0;
        while j < n
            invariant
                j <= n,
                n == text@.len(),
                text_chars@ == text@.take(j as int),
            decreases n - j,
        {
            let c = text.as_str().get_char(j);
            text_chars.push(c);
            proof {
                assert(text@.take(j as int).push(text@[j as int]) =~= text@.take(j + 1));
            }
            j = j + 1;
        }
        proof {
            assert(text@.take(text@.len() as int) =~= text@);
        }
        Game {
            word_count,
            input: Vec::new(),
            text,
            text_chars,
            mistakes: 0,
            state: GameState::Running(now_ms),
            strict,
            skip_word_on_space,
        }
    }

    /// The per-character diff: each typed character paired with whether
    /// it matches the target character at the same position. Its length
    /// never exceeds the target's.
    pub fn input(&self) -> (r: Vec<(char, bool)>)
        ensures
            r@.len() == if self.input@.len() <= self.text_chars@.len() {
                self.input@.len() as int
            } else {
                self.text_chars@.len() as int
            },
            r@.len() <= self.text_chars@.len(),
            forall|i: int|
                0 <= i < r@.len() ==> r@[i] == (self.input@[i], self.input@[i]
                    == self.text_chars@[i]),
    {
        let n = if self.input.len() <= self.text_chars.len() {
            self.input.len()
        } else {
            self.text_chars.len()
        };
        let mut r: Vec<(char, bool)> = Vec::new();
        let mut i: usize = 0;
        while i < n
            invariant
                i <= n,
                n <= self.input@.len(),
                n <= self.text_chars@.len(),
                r@.len() == i,
                forall|k: int|
                    0 <= k < i ==> r@[k] == (self.input@[k], self.input@[k]
                        == self.text_chars@[k]),
            decreases n - i,
        {
            let c = self.input[i];
            let t = self.text_chars[i];
            r.push((c, c == t));
            i = i + 1;
        }
        r
    }

    /// Removes the last character; a trailing run of spaces goes in one
    /// call, so one backspace undoes a whole word-skip fill. Empty
    /// buffers are left alone.
    pub fn pop(&mut self)
        requires
            old(self).wf(),
        ensures
            final(self).wf(),
            *final(self) == (Game { input: final(self).input, ..*old(self) }),
            final(self).input@ == pop_spec(old(self).input@),
    {
        if self.input.len() == 0 {
            return ;
        }
        let last = self.input[self.input.len() - 1];
        if last != ' ' {
            self.input.pop();
            proof {
                assert(old(self).input@.drop_last() =~= pop_spec(old(self).input@));
            }
        } else {
            let ghost orig = self.input@;
            while self.input.len() > 0 && self.input[self.input.len() - 1] == ' '
                invariant
                    self.input@.len() <= orig.len(),
                    self.input@ == orig.take(self.input@.len() as int),
                    trailing_spaces(orig) == orig.len() - self.input@.len() + trailing_spaces(
                        self.input@,
                    ),
                    self.text == old(self).text,
                    self.text_chars == old(self).text_chars,
                    self.state == old(self).state,
                    self.mistakes == old(self).mistakes,
                    self.word_count == old(self).word_count,
                    self.strict == old(self).strict,
                    self.skip_word_on_space == old(self).skip_word_on_space,
                decreases self.input.len(),
            {
                proof {
                    assert(self.input@.drop_last() =~= orig.take(self.input@.len() - 1));
                }
                self.input.pop();
            }
            proof {
                assert(self.input@ =~= pop_spec(orig));
            }
        }
    }

    /// Removes trailing characters back through the previous word: first
    /// the trailing spaces, then the non-space run before them.
    pub fn pop_word(&mut self)
        requires
            old(self).wf(),
        ensures
            final(self).wf(),
            *final(self) == (Game { input: final(self).input, ..*old(self) }),
            final(self).input@ == pop_word_spec(old(self).input@),
    {
        let ghost orig = self.input@;
        while self.input.len() > 0 && self.input[self.input.len() - 1] == ' '
            invariant
                self.input@.len() <= orig.len(),
                self.input@ == orig.take(self.input@.len() as int),
                trailing_spaces(orig) == orig.len() - self.input@.len() + trailing_spaces(
                    self.input@,
                ),
                self.text == old(self).text,
                self.text_chars == old(self).text_chars,
                self.state == old(self).state,
                self.mistakes == old(self).mistakes,
                self.word_count == old(self).word_count,
                self.strict == old(self).strict,
                self.skip_word_on_space == old(self).skip_word_on_space,
            decreases self.input.len(),
        {
            proof {
                assert(self.input@.drop_last() =~= orig.take(self.input@.len() - 1));
            }
            self.input.pop();
        }
        let ghost mid = self.input@;
        proof {
            assert(mid =~= orig.take(orig.len() - trailing_spaces(orig)));
        }
        while self.input.len() > 0 && self.input[self.input.len() - 1] != ' '
            invariant
                self.input@.len() <= mid.len(),
                self.input@ == mid.take(self.input@.len() as int),
                trailing_nonspaces(mid) == mid.len() - self.input@.len() + trailing_nonspaces(
                    self.input@,
                ),
                self.text == old(self).text,
                self.text_chars == old(self).text_chars,
                self.state == old(self).state,
                self.mistakes == old(self).mistakes,
                self.word_count == old(self).word_count,
                self.strict == old(self).strict,
                self.skip_word_on_space == old(self).skip_word_on_space,
            decreases self.input.len(),
        {
            proof {
                assert(self.input@.drop_last() =~= mid.take(self.input@.len() - 1));
            }
            self.input.pop();
        }
        proof {
            assert(self.input@ =~= pop_word_spec(orig));
        }
    }

    /// Forces the session to run, stamped with the given time.
    pub fn start(&mut self, now_ms: u64)
        requires
            old(self).wf(),
        ensures
            final(self).wf(),
            *final(self) == (Game { state: GameState::Running(now_ms), ..*old(self) }),
    {
        self.state = GameState::Running(now_ms);
    }

    /// Characters per minute for the whole target over the given elapsed
    /// time, by truncating integer arithmetic.
    pub fn cpm(&self, elapsed_ms: u64) -> (r: usize)
        ensures
            r == cpm_of(self.text_chars@.len() as int, elapsed_ms as int),
    {
        let chars = self.text_chars.len();
        if elapsed_ms == 0 {
            0
        } else {
            let v: u128 = (chars as u128) * 60000u128 / (elapsed_ms as u128);
            if v > (usize::MAX as u128) {
                usize::MAX
            } else {
                v as usize
            }
        }
    }

    /// Words per minute: characters per minute over five characters per
    /// word.
    pub fn wpm(&self, elapsed_ms: u64) -> (r: usize)
        ensures
            r == wpm_of(self.text_chars@.len() as int, elapsed_ms as int),
    {
        self.cpm(elapsed_ms) / 5
    }

    /// A space was typed while the cursor stands on a non-space target
    /// character: the word-skip rule is in play if the flag is on.
    pub open spec fn skip_eligible(self, c: char) -> bool {
        &&& self.skip_word_on_space
        &&& c == ' '
        &&& self.cursor() < self.target().len()
        &&& self.target()[self.cursor()] != ' '
    }

    /// The word-skip rule actually fires: the cursor is mid-word, not at
    /// the very start of the text and not at the start of a word.
    pub open spec fn skip_fires(self, c: char) -> bool {
        &&& self.skip_eligible(c)
        &&& self.cursor() > 0
        &&& self.target()[self.cursor() - 1] != ' '
    }

    /// How many spaces a word-skip fill appends: the rest of the current
    /// target word plus the one separating space.
    pub open spec fn fill_len(self) -> int {
        word_run(self.target(), self.cursor()) + 1
    }

    /// Feeds one typed character into the session.
    ///
    /// A finished session ignores it. An empty buffer restamps the start
    /// time, so the timer runs from the first keystroke. A space with the
    /// cursor on a non-space target character is either ignored (at the
    /// start of the text or of a word) or, with word-skip enabled, fills
    /// spaces through the end of the word plus its separator, each filled
    /// character counting as a mistake. Any other character is appended
    /// and compared against the target character at its position; in
    /// non-strict mode a space typed just past the target's end finishes
    /// the session despite trailing mistakes. The buffer is trimmed so it
    /// never outgrows the target by more than one character.
    pub fn push(&mut self, c: char, now_ms: u64)
        requires
            old(self).wf(),
        ensures
            final(self).wf(),
            final(self).text == old(self).text,
            final(self).text_chars == old(self).text_chars,
            final(self).word_count == old(self).word_count,
            final(self).strict == old(self).strict,
            final(self).skip_word_on_space == old(self).skip_word_on_space,
            old(self).state is Finished ==> *final(self) == *old(self),
            !(old(self).state is Finished) && old(self).skip_eligible(c) && !old(self).skip_fires(
                c,
            ) ==> {
                &&& final(self).input == old(self).input
                &&& final(self).mistakes == old(self).mistakes
                &&& final(self).state == old(self).restamped(now_ms)
            },
            !(old(self).state is Finished) && old(self).skip_fires(c) ==> {
                let k = old(self).fill_len();
                &&& final(self).input@ == old(self).input@ + Seq::new(k as nat, |i: int| ' ')
                &&& final(self).mistakes == old(self).mistakes.saturating_add(k as usize)
                &&& final(self).state == if !old(self).strict && old(self).cursor() + k
                    >= old(self).target().len() {
                    (Game { mistakes: final(self).mistakes, ..*old(self) }).finish_spec(now_ms)
                } else {
                    old(self).state
                }
            },
            !(old(self).state is Finished) && !old(self).skip_eligible(c) ==> {
                let quit = !old(self).strict && old(self).cursor() >= old(self).target().len() && c
                    == ' ';
                let hit = if old(self).cursor() < old(self).target().len() {
                    c == old(self).target()[old(self).cursor()]
                } else if old(self).target().len() > 0 {
                    c == old(self).target().last()
                } else {
                    false
                };
                let m2 = if !quit && !hit {
                    old(self).mistakes.saturating_add(1)
                } else {
                    old(self).mistakes
                };
                let done = old(self).input@.push(c) == old(self).target() || quit;
                &&& final(self).mistakes == m2
                &&& final(self).input@ == if old(self).cursor() + 1 > old(self).target().len() {
                    old(self).input@
                } else {
                    old(self).input@.push(c)
                }
                &&& final(self).state == if done {
                    (Game {
                        mistakes: m2,
                        state: old(self).restamped(now_ms),
                        ..*old(self)
                    }).finish_spec(now_ms)
                } else {
                    old(self).restamped(now_ms)
                }
            },
    {
        if matches!(self.state, GameState::Finished { .. }) {
            return ;
        }
        if self.input.len() == 0 {
            self.state = GameState::Running(now_ms);
        }
        let current_index = self.input.len();
        let tlen = self.text_chars.len();

        // Word-skip handling: a space over a non-space target character
        // never lands literally in the buffer.
        if self.skip_word_on_space && c == ' ' && current_index < tlen
            && self.text_chars[current_index] != ' ' {
            if current_index == 0 {
                return ;
            }
            if self.text_chars[current_index - 1] == ' ' {
                return ;
            }
            let ghost t = self.text_chars@;
            let mut j = current_index;
            while j < tlen && self.text_chars[j] != ' '
                invariant
                    current_index <= j <= tlen,
                    tlen == self.text_chars@.len(),
                    t == self.text_chars@,
                    word_run(t, current_index as int) == j - current_index + word_run(t, j as int),
                    *self == *old(self),
                decreases tlen - j,
            {
                j = j + 1;
            }
            let count = j - current_index + 1;
            assert(count == old(self).fill_len());
            let ghost orig = self.input@;
            let mut i: usize = 0;
            while i < count
                invariant
                    i <= count,
                    self.input@ == orig + Seq::new(i as nat, |k: int| ' '),
                    self.text == old(self).text,
                    self.text_chars == old(self).text_chars,
                    self.state == old(self).state,
                    self.mistakes == old(self).mistakes,
                    self.word_count == old(self).word_count,
                    self.strict == old(self).strict,
                    self.skip_word_on_space == old(self).skip_word_on_space,
                decreases count - i,
            {
                self.input.push(' ');
                proof {
                    assert((orig + Seq::new(i as nat, |k: int| ' ')).push(' ') =~= orig + Seq::new(
                        (i + 1) as nat,
                        |k: int| ' ',
                    ));
                }
                i = i + 1;
            }
            self.mistakes = self.mistakes.saturating_add(count);
            if !self.strict && self.input.len() >= tlen {
                self.finish(now_ms);
            }
            return ;
        }
        self.input.push(c);
        let hit = if current_index < tlen {
            c == self.text_chars[current_index]
        } else if tlen > 0 {
            c == self.text_chars[tlen - 1]
        } else {
            false
        };
        let should_quit = !self.strict && current_index >= tlen && c == ' ';
        if !should_quit && !hit {
            self.mistakes = self.mistakes.saturating_add(1);
        }
        let matched = vec_chars_eq(&self.input, &self.text_chars);
        if matched || should_quit {
            self.finish(now_ms);
        }
        if self.input.len() > tlen {
            self.input.pop();
            proof {
                assert(old(self).input@.push(c).drop_last() =~= old(self).input@);
            }
        }
    }

    /// Derives the final statistics and stores them; does nothing unless
    /// the session is running, so finishing twice never changes what the
    /// first transition stored.
    pub fn finish(&mut self, now_ms: u64)
        ensures
            *final(self) == (Game { state: old(self).finish_spec(now_ms), ..*old(self) }),
            old(self).state is Finished ==> *final(self) == *old(self),
    {
        match self.state {
            GameState::Stopped => {},
            GameState::Finished { .. } => {},
            GameState::Running(start) => {
                let elapsed = now_ms.saturating_sub(start);
                let n = self.text_chars.len();
                let m = self.mistakes;
                let accuracy: usize = if n == 0 {
                    100
                } else if m >= n {
                    0
                } else {
                    proof {
                        lemma_accuracy_in_range(m as int, n as int);
                    }
                    (((n - m) as u128) * 100u128 / (n as u128)) as usize
                };
                let cpm = self.cpm(elapsed);
                let wpm = cpm / 5;
                self.state = GameState::Finished {
                    elapsed_ms: elapsed,
                    wpm,
                    cpm,
                    word_count: self.word_count,
                    mistakes: self.mistakes,
                    accuracy,
                };
            },
        }
    }
}

/// Whether two character vectors hold the same characters.
pub(crate) fn vec_chars_eq(a: &Vec<char>, b: &Vec<char>) -> (r: bool)
    ensures
        r <==> a@ == b@,
{
    if a.len() != b.len() {
        proof {
            assert(a@.len() != b@.len());
        }
        return false;
    }
    let mut i: usize = 0;
    while i < a.len()
        invariant
            i <= a@.len(),
            a@.len() == b@.len(),
            forall|k: int| 0 <= k < i ==> a@[k] == b@[k],
        decreases a@.len() - i,
    {
        if a[i] != b[i] {
            return false;
        }
        i = i + 1;
    }
    proof {
        assert(a@ =~= b@);
    }
    true
}

/// Accuracy never leaves 0..=100: for any mistake count and any positive
/// character count, `accuracy_of` is at least 0 and at most 100.
pub proof fn lemma_accuracy_in_range(mistakes: int, chars: int)
    requires
        chars > 0,
        mistakes >= 0,
    ensures
        0 <= accuracy_of(mistakes, chars) <= 100,
{
    if mistakes < chars {
        let a = chars - mistakes;
        assert(a * 100 / chars <= 100 && a * 100 / chars >= 0) by (nonlinear_arith)
            requires
                0 < a <= chars,
        ;
    }
}

/// The non-space run length is never negative.
proof fn lemma_word_run_nonneg(t: Seq<char>, i: int)
    ensures
        word_run(t, i) >= 0,
    decreases t.len() - i,
{
    if !(i < 0 || i >= t.len() || t[i] == ' ') {
        lemma_word_run_nonneg(t, i + 1);
    }
}

/// One backspace undoes one word-skip fill: when the skip rule fires on
/// a buffer that does not itself end in a space, `pop` applied to the
/// filled buffer (the old buffer plus `fill_len` spaces, as `push`
/// leaves it) gives back exactly the pre-skip buffer, so its length is
/// restored too.
pub proof fn lemma_pop_restores_preskip_buffer(g: Game, c: char)
    requires
        g.skip_fires(c),
        g.input@.last() != ' ',
    ensures
        pop_spec(g.input@ + Seq::new(g.fill_len() as nat, |i: int| ' ')) == g.input@,
{
    lemma_word_run_nonneg(g.target(), g.cursor());
    lemma_pop_undoes_word_skip(g.input@, g.fill_len());
}

/// A backspace right after a word-skip fill undoes the whole fill: for a
/// buffer that does not itself end in a space, appending a run of spaces
/// (as the fill does) and then popping removes exactly that run, so the
/// buffer — and with it its length — is restored to its pre-skip value.
pub proof fn lemma_pop_undoes_word_skip(b: Seq<char>, k: int)
    requires
        b.len() > 0,
        b.last() != ' ',
        k >= 1,
    ensures
        pop_spec(b + Seq::new(k as nat, |i: int| ' ')) == b,
    decreases k,
{
    let filled = b + Seq::new(k as nat, |i: int| ' ');
    lemma_trailing_spaces_of_fill(b, k);
    assert(filled.last() == ' ');
    assert(filled.take(filled.len() - k) =~= b);
}

/// The trailing space run of a buffer extended by a space fill is exactly
/// the fill, when the buffer itself does not end in a space.
proof fn lemma_trailing_spaces_of_fill(b: Seq<char>, k: int)
    requires
        b.len() > 0,
        b.last() != ' ',
        k >= 1,
    ensures
        trailing_spaces(b + Seq::new(k as nat, |i: int| ' ')) == k,
    decreases k,
{
    let filled = b + Seq::new(k as nat, |i: int| ' ');
    assert(filled.last() == ' ');
    if k == 1 {
        assert(trailing_spaces(b) == 0);
        assert(filled.drop_last() =~= b);
        assert(trailing_spaces(filled) == 1 + trailing_spaces(b));
    } else {
        lemma_trailing_spaces_of_fill(b, k - 1);
        let prev = b + Seq::new((k - 1) as nat, |i: int| ' ');
        assert(filled.drop_last() =~= prev);
        assert(trailing_spaces(filled) == 1 + trailing_spaces(prev));
    }
}

/// Finishing is idempotent: applying the finish transition to a session
/// that has already taken it changes nothing, whatever time is supplied.
pub proof fn lemma_finish_idempotent(g: Game, now1: u64, now2: u64)
    ensures
        (Game { state: g.finish_spec(now1), ..g }).finish_spec(now2) == g.finish_spec(now1),
{
}

} // verus!
