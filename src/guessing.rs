//! The number-guessing game: reading a guess from a line of text, comparing it
//! with the secret, and the session's state machine.
use rand::Rng;
use vstd::prelude::*;

verus! {

/// Characters with the Unicode `White_Space` property, which `str::trim` strips.
pub open spec fn is_whitespace_spec(c: char) -> bool {
    ('\u{9}' <= c && c <= '\u{d}') || c == ' ' || c == '\u{85}' || c == '\u{a0}'
        || c == '\u{1680}' || ('\u{2000}' <= c && c <= '\u{200a}') || c == '\u{2028}'
        || c == '\u{2029}' || c == '\u{202f}' || c == '\u{205f}' || c == '\u{3000}'
}

/// `s` without its leading whitespace.
pub open spec fn trim_start_spec(s: Seq<char>) -> Seq<char>
    decreases s.len(),
{
    if s.len() > 0 && is_whitespace_spec(s[0]) {
        trim_start_spec(s.drop_first())
    } else {
        s
    }
}

/// `s` without its trailing whitespace.
pub open spec fn trim_end_spec(s: Seq<char>) -> Seq<char>
    decreases s.len(),
{
    if s.len() > 0 && is_whitespace_spec(s.last()) {
        trim_end_spec(s.drop_last())
    } else {
        s
    }
}

/// `s` without surrounding whitespace.
pub open spec fn trim_spec(s: Seq<char>) -> Seq<char> {
    trim_end_spec(trim_start_spec(s))
}

pub open spec fn is_digit_spec(c: char) -> bool {
    '0' <= c && c <= '9'
}

pub open spec fn all_digits(s: Seq<char>) -> bool {
    forall|i: int| 0 <= i < s.len() ==> is_digit_spec(#[trigger] s[i])
}

/// The value of a string of decimal digits, most significant first.
pub open spec fn digits_value(s: Seq<char>) -> int
    decreases s.len(),
{
    if s.len() == 0 {
        0
    } else {
        digits_value(s.drop_last()) * 10 + (s.last() as int - '0' as int)
    }
}

/// The digits of an unsigned number: the text after an optional leading `+`.
pub open spec fn unsigned_digits(s: Seq<char>) -> Seq<char> {
    if s.len() > 0 && s[0] == '+' {
        s.drop_first()
    } else {
        s
    }
}

/// The guess that a line of input names: the line without surrounding whitespace
/// must be one or more decimal digits, optionally after a `+`, whose value fits in
/// a `u32`. Anything else (empty, a sign `-`, a letter, too large) names none.
pub open spec fn parsed_guess(line: Seq<char>) -> Option<u32> {
    let d = unsigned_digits(trim_spec(line));
    if d.len() > 0 && all_digits(d) && digits_value(d) <= u32::MAX {
        Some(digits_value(d) as u32)
    } else {
        None
    }
}

fn is_whitespace(c: char) -> (r: bool)
    ensures
        r == is_whitespace_spec(c),
{
    ('\u{9}' <= c && c <= '\u{d}') || c == ' ' || c == '\u{85}' || c == '\u{a0}'
        || c == '\u{1680}' || ('\u{2000}' <= c && c <= '\u{200a}') || c == '\u{2028}'
        || c == '\u{2029}' || c == '\u{202f}' || c == '\u{205f}' || c == '\u{3000}'
}

proof fn lemma_trim_start(s: Seq<char>, k: int)
    requires
        0 <= k <= s.len(),
        forall|j: int| 0 <= j < k ==> is_whitespace_spec(#[trigger] s[j]),
        k == s.len() || !is_whitespace_spec(s[k]),
    ensures
        trim_start_spec(s) == s.subrange(k, s.len() as int),
    decreases k,
{
    if k == 0 {
        assert(s.subrange(0, s.len() as int) =~= s);
    } else {
        let t = s.drop_first();
        assert forall|j: int| 0 <= j < k - 1 implies is_whitespace_spec(#[trigger] t[j]) by {
            assert(t[j] == s[j + 1]);
        }
        lemma_trim_start(t, k - 1);
        assert(t.subrange(k - 1, t.len() as int) =~= s.subrange(k, s.len() as int));
    }
}

proof fn lemma_trim_end(s: Seq<char>, k: int)
    requires
        0 <= k <= s.len(),
        forall|j: int| k <= j < s.len() ==> is_whitespace_spec(#[trigger] s[j]),
        k == 0 || !is_whitespace_spec(s[k - 1]),
    ensures
        trim_end_spec(s) == s.subrange(0, k),
    decreases s.len() - k,
{
    if k == s.len() {
        assert(s.subrange(0, k) =~= s);
    } else {
        let t = s.drop_last();
        assert forall|j: int| k <= j < t.len() implies is_whitespace_spec(#[trigger] t[j]) by {
            assert(t[j] == s[j]);
        }
        lemma_trim_end(t, k);
        assert(t.subrange(0, k) =~= s.subrange(0, k));
    }
}

proof fn lemma_digits_prefix(s: Seq<char>, k: int)
    requires
        0 <= k <= s.len(),
        all_digits(s),
    ensures
        digits_value(s.subrange(0, k)) <= digits_value(s),
        0 <= digits_value(s.subrange(0, k)),
    decreases s.len(),
{
    if k == s.len() {
        assert(s.subrange(0, k) =~= s);
        lemma_digits_nonneg(s);
    } else {
        let t = s.drop_last();
        assert(all_digits(t)) by {
            assert forall|i: int| 0 <= i < t.len() implies is_digit_spec(#[trigger] t[i]) by {
                assert(t[i] == s[i]);
            }
        }
        lemma_digits_prefix(t, k);
        assert(t.subrange(0, k) =~= s.subrange(0, k));
        lemma_digits_nonneg(t);
        assert(is_digit_spec(s[s.len() - 1]));
    }
}

proof fn lemma_digits_nonneg(s: Seq<char>)
    requires
        all_digits(s),
    ensures
        0 <= digits_value(s),
    decreases s.len(),
{
    if s.len() > 0 {
        let t = s.drop_last();
        assert forall|i: int| 0 <= i < t.len() implies is_digit_spec(#[trigger] t[i]) by {
            assert(t[i] == s[i]);
        }
        lemma_digits_nonneg(t);
        assert(is_digit_spec(s[s.len() - 1]));
    }
}

/// Reads a guess from a line: surrounding whitespace is ignored, and the rest must
/// be an unsigned decimal number that fits in a `u32`.
pub fn parse_guess(line: &str) -> (r: Option<u32>)
    ensures
        r == parsed_guess(line@),
{
    let n = line.unicode_len();
    let ghost s = line@;
    let mut start: usize = 0;
    while start < n && is_whitespace(line.get_char(start))
        invariant
            n == s.len(),
            s == line@,
            start <= n,
            forall|j: int| 0 <= j < start ==> is_whitespace_spec(#[trigger] s[j]),
        decreases n - start,
    {
        start = start + 1;
    }
    proof {
        lemma_trim_start(s, start as int);
    }
    let ghost front = s.subrange(start as int, n as int);
    let mut end: usize = n;
    while end > start && is_whitespace(line.get_char(end - 1))
        invariant
            n == s.len(),
            s == line@,
            start <= end <= n,
            forall|j: int| end <= j < n ==> is_whitespace_spec(#[trigger] s[j]),
        decreases end,
    {
        end = end - 1;
    }
    let ghost t = s.subrange(start as int, end as int);
    proof {
        assert forall|j: int| end - start <= j < front.len() implies is_whitespace_spec(
            #[trigger] front[j],
        ) by {
            assert(front[j] == s[start + j]);
        }
        lemma_trim_end(front, end - start);
        assert(front.subrange(0, end - start) =~= t);
    }
    assert(trim_spec(s) == t);
    let mut i: usize = start;
    if i < end && line.get_char(i) == '+' {
        i = i + 1;
    }
    let ghost d = unsigned_digits(t);
    assert(d =~= s.subrange(i as int, end as int));
    if i == end {
        return None;
    }
    let mut value: u64 = 0;
    let first = i;
    while i < end
        invariant
            n == s.len(),
            s == line@,
            first <= i <= end <= n,
            d == s.subrange(first as int, end as int),
            d == unsigned_digits(trim_spec(line@)),
            d.len() > 0,
            value == digits_value(d.subrange(0, i - first)),
            value <= u32::MAX,
            all_digits(d.subrange(0, i - first)),
        decreases end - i,
    {
        let c = line.get_char(i);
        if !('0' <= c && c <= '9') {
            assert(!all_digits(d)) by {
                assert(d[i - first] == c);
            }
            return None;
        }
        let ghost before = d.subrange(0, i - first);
        let ghost after = d.subrange(0, i - first + 1);
        assert(after.drop_last() =~= before);
        assert(after.last() == c);
        value = value * 10 + (c as u64 - '0' as u64);
        assert(all_digits(after)) by {
            assert forall|k: int| 0 <= k < after.len() implies is_digit_spec(#[trigger] after[k]) by {
                if k < before.len() {
                    assert(after[k] == before[k]);
                }
            }
        }
        if value > u32::MAX as u64 {
            proof {
                if all_digits(d) {
                    lemma_digits_prefix(d, i - first + 1);
                }
            }
            return None;
        }
        i = i + 1;
    }
    assert(d.subrange(0, i - first) =~= d);
    Some(value as u32)
}

/// The smallest secret a session draws.
pub const SECRET_MIN: u32 = 1;

/// The largest secret a session draws.
pub const SECRET_MAX: u32 = 100;

/// What the game answers to one line of input, or to the end of the input.
#[derive(Clone, Copy, Debug, PartialEq, Eq, Structural)]
pub enum Feedback {
    /// The line names no number; the session goes on.
    Invalid,
    /// The guess is below the secret; the session goes on.
    TooSmall,
    /// The guess is above the secret; the session goes on.
    TooBig,
    /// The guess is the secret; the session is won.
    Win,
    /// No more input could be read; the session is aborted.
    InputFailed,
}

/// Where a session stands.
#[derive(Clone, Copy, Debug, PartialEq, Eq, Structural)]
pub enum Phase {
    /// Waiting for the next guess.
    AwaitingInput,
    /// The secret was guessed: terminal.
    Won,
    /// The input stream ended first: terminal.
    Aborted,
}

/// The answer to a guess that was read: its order against the secret.
pub open spec fn order_feedback(guess: u32, secret: u32) -> Feedback {
    if guess < secret {
        Feedback::TooSmall
    } else if guess > secret {
        Feedback::TooBig
    } else {
        Feedback::Win
    }
}

/// The answer to one line of input.
pub open spec fn respond(secret: u32, line: Seq<char>) -> Feedback {
    match parsed_guess(line) {
        Some(g) => order_feedback(g, secret),
        None => Feedback::Invalid,
    }
}

/// The phase a session moves to after giving `fb`.
pub open spec fn next_phase(fb: Feedback) -> Phase {
    match fb {
        Feedback::Win => Phase::Won,
        Feedback::InputFailed => Phase::Aborted,
        _ => Phase::AwaitingInput,
    }
}

/// The answers of a whole session with secret `secret` whose input is `lines`:
/// one per line up to and including the first winning one; if no line wins, the
/// end of the input is answered with `InputFailed`.
pub open spec fn run(secret: u32, lines: Seq<Seq<char>>) -> Seq<Feedback>
    decreases lines.len(),
{
    if lines.len() == 0 {
        seq![Feedback::InputFailed]
    } else {
        let fb = respond(secret, lines[0]);
        if fb == Feedback::Win {
            seq![fb]
        } else {
            seq![fb] + run(secret, lines.drop_first())
        }
    }
}

/// The lines of a slice as character sequences.
pub open spec fn lines_view(lines: Seq<&str>) -> Seq<Seq<char>> {
    lines.map_values(|l: &str| l@)
}

/// Compares a guess with the secret.
pub fn compare_guess(guess: u32, secret: u32) -> (r: Feedback)
    ensures
        r == order_feedback(guess, secret),
{
    if guess < secret {
        Feedback::TooSmall
    } else if guess > secret {
        Feedback::TooBig
    } else {
        Feedback::Win
    }
}

/// Relies on rand's `thread_rng().gen_range(low..=high)`: the value drawn lies in
/// the inclusive range, which is not empty.
#[verifier::external_body]
fn random_in_range(low: u32, high: u32) -> (r: u32)
    requires
        low <= high,
    ensures
        low <= r <= high,
{
    rand::thread_rng().gen_range(low..=high)
}

/// The abstract state of a session.
pub struct SessionModel {
    pub secret: u32,
    pub phase: Phase,
}

/// One game: a secret fixed when the session begins, and its phase.
pub struct Session {
    secret: u32,
    phase: Phase,
}

impl View for Session {
    type V = SessionModel;

    closed spec fn view(&self) -> SessionModel {
        SessionModel { secret: self.secret, phase: self.phase }
    }
}

impl Session {
    /// A session on a secret within the draw range, waiting for its first guess.
    pub fn new(secret: u32) -> (r: Session)
        requires
            SECRET_MIN <= secret <= SECRET_MAX,
        ensures
            r@.secret == secret,
            r@.phase == Phase::AwaitingInput,
    {
        Session { secret, phase: Phase::AwaitingInput }
    }

    /// A session on a secret drawn at random from the draw range.
    pub fn start() -> (r: Session)
        ensures
            SECRET_MIN <= r@.secret <= SECRET_MAX,
            r@.phase == Phase::AwaitingInput,
    {
        let secret = random_in_range(SECRET_MIN, SECRET_MAX);
        Session::new(secret)
    }

    /// The secret of this session.
    pub fn secret(&self) -> (r: u32)
        ensures
            r == self@.secret,
    {
        self.secret
    }

    /// The phase of this session.
    pub fn phase(&self) -> (r: Phase)
        ensures
            r == self@.phase,
    {
        self.phase
    }

    /// Whether the session still waits for a guess.
    pub fn is_awaiting_input(&self) -> (r: bool)
        ensures
            r == (self@.phase == Phase::AwaitingInput),
    {
        match self.phase {
            Phase::AwaitingInput => true,
            _ => false,
        }
    }

    /// Answers one event of a session that waits for input: `Some(line)` is a line
    /// read, `None` the end of the input. The secret never changes; an unreadable
    /// line is answered with `Invalid` and leaves the session waiting.
    pub fn step(&mut self, line: Option<&str>) -> (r: Feedback)
        requires
            old(self)@.phase == Phase::AwaitingInput,
        ensures
            r == (match line {
                Some(l) => respond(old(self)@.secret, l@),
                None => Feedback::InputFailed,
            }),
            final(self)@.secret == old(self)@.secret,
            final(self)@.phase == next_phase(r),
            line matches Some(l) && parsed_guess(l@) is None ==> r == Feedback::Invalid
                && final(self)@.phase == Phase::AwaitingInput,
    {
        let fb = match line {
            Some(l) => match parse_guess(l) {
                Some(g) => compare_guess(g, self.secret),
                None => Feedback::Invalid,
            },
            None => Feedback::InputFailed,
        };
        self.phase = match fb {
            Feedback::Win => Phase::Won,
            Feedback::InputFailed => Phase::Aborted,
            _ => Phase::AwaitingInput,
        };
        fb
    }
}

/// Plays a whole session with secret `secret` on the input `lines`, and returns
/// the answers given, in order: the session stops at the first winning line, and
/// answers the end of the input with `InputFailed` if no line wins.
pub fn play(secret: u32, lines: &[&str]) -> (r: Vec<Feedback>)
    requires
        SECRET_MIN <= secret <= SECRET_MAX,
    ensures
        r@ == run(secret, lines_view(lines@)),
{
    let ghost all = lines_view(lines@);
    let mut session = Session::new(secret);
    let mut out: Vec<Feedback> = Vec::new();
    let mut i: usize = 0;
    assert(all.subrange(0, all.len() as int) =~= all);
    assert(out@ + run(secret, all) =~= run(secret, all));
    while i < lines.len() && session.is_awaiting_input()
        invariant
            all == lines_view(lines@),
            i <= lines.len(),
            session@.secret == secret,
            session@.phase == Phase::AwaitingInput || session@.phase == Phase::Won,
            session@.phase == Phase::AwaitingInput ==> out@ + run(
                secret,
                all.subrange(i as int, all.len() as int),
            ) == run(secret, all),
            session@.phase == Phase::Won ==> out@ == run(secret, all),
        decreases lines.len() - i,
    {
        let ghost rest = all.subrange(i as int, all.len() as int);
        let ghost prev = out@;
        let fb = session.step(Some(lines[i]));
        proof {
            assert(rest[0] == lines@[i as int]@);
            assert(rest.drop_first() =~= all.subrange(i + 1, all.len() as int));
        }
        out.push(fb);
        proof {
            if fb == Feedback::Win {
                assert(out@ =~= prev + run(secret, rest));
            } else {
                assert(out@ + run(secret, rest.drop_first()) =~= prev + run(secret, rest));
            }
        }
        i = i + 1;
    }
    if session.is_awaiting_input() {
        let fb = session.step(None);
        out.push(fb);
        proof {
            assert(all.subrange(i as int, all.len() as int) =~= Seq::<Seq<char>>::empty());
        }
    }
    out
}

/// A line is answered `Win` exactly when it names the secret.
proof fn lemma_respond_win(secret: u32, line: Seq<char>)
    ensures
        (respond(secret, line) == Feedback::Win) == (parsed_guess(line) == Some(secret)),
{
}

/// Every line before the first one that names the secret is answered by the
/// ordering of its guess against the secret (or as unreadable), never otherwise.
pub proof fn lemma_feedback_follows_order(secret: u32, lines: Seq<Seq<char>>, i: int)
    requires
        0 <= i < lines.len(),
        forall|j: int| 0 <= j < i ==> parsed_guess(#[trigger] lines[j]) != Some(secret),
    ensures
        i < run(secret, lines).len(),
        run(secret, lines)[i] == (match parsed_guess(lines[i]) {
            Some(g) => if g < secret {
                Feedback::TooSmall
            } else if g > secret {
                Feedback::TooBig
            } else {
                Feedback::Win
            },
            None => Feedback::Invalid,
        }),
    decreases i,
{
    if i > 0 {
        let rest = lines.drop_first();
        lemma_respond_win(secret, lines[0]);
        assert(parsed_guess(lines[0]) != Some(secret));
        assert forall|j: int| 0 <= j < i - 1 implies parsed_guess(#[trigger] rest[j]) != Some(
            secret,
        ) by {
            assert(rest[j] == lines[j + 1]);
        }
        lemma_feedback_follows_order(secret, rest, i - 1);
        assert(rest[i - 1] == lines[i]);
    }
}

/// A session whose every line names a guess below the secret never ends in a win:
/// each line is answered `TooSmall`, and the end of the input `InputFailed`.
pub proof fn lemma_small_guesses_never_win(secret: u32, lines: Seq<Seq<char>>)
    requires
        forall|j: int|
            0 <= j < lines.len() ==> (#[trigger] parsed_guess(lines[j]) matches Some(g) && g
                < secret),
    ensures
        run(secret, lines) == Seq::new(lines.len(), |k: int| Feedback::TooSmall).push(
            Feedback::InputFailed,
        ),
        !run(secret, lines).contains(Feedback::Win),
    decreases lines.len(),
{
    let r = run(secret, lines);
    let expected = Seq::new(lines.len(), |k: int| Feedback::TooSmall).push(Feedback::InputFailed);
    if lines.len() == 0 {
        assert(r =~= expected);
    } else {
        let rest = lines.drop_first();
        assert(parsed_guess(lines[0]) matches Some(g) && g < secret);
        assert forall|j: int| 0 <= j < rest.len() implies (#[trigger] parsed_guess(rest[j]) matches Some(
            g,
        ) && g < secret) by {
            assert(rest[j] == lines[j + 1]);
        }
        lemma_small_guesses_never_win(secret, rest);
        assert(r =~= expected);
    }
    assert(!r.contains(Feedback::Win)) by {
        if r.contains(Feedback::Win) {
            let k = choose|k: int| 0 <= k < r.len() && r[k] == Feedback::Win;
            assert(r[k] == expected[k]);
        }
    }
}

/// A session is won exactly when some line names the secret; until then it goes
/// on, and it stops at the first such line.
pub proof fn lemma_win_iff_secret_named(secret: u32, lines: Seq<Seq<char>>)
    ensures
        run(secret, lines).len() >= 1,
        (run(secret, lines).last() == Feedback::Win) == (exists|j: int|
            0 <= j < lines.len() && parsed_guess(#[trigger] lines[j]) == Some(secret)),
        forall|k: int|
            0 <= k < run(secret, lines).len() - 1 ==> #[trigger] run(secret, lines)[k]
                != Feedback::Win && run(secret, lines)[k] != Feedback::InputFailed,
        run(secret, lines).last() == Feedback::Win ==> run(secret, lines).len() <= lines.len(),
        run(secret, lines).last() == Feedback::Win ==> parsed_guess(
            lines[run(secret, lines).len() - 1],
        ) == Some(secret),
    decreases lines.len(),
{
    let r = run(secret, lines);
    if lines.len() > 0 {
        let rest = lines.drop_first();
        lemma_respond_win(secret, lines[0]);
        lemma_win_iff_secret_named(secret, rest);
        if parsed_guess(lines[0]) != Some(secret) {
            let rr = run(secret, rest);
            assert(r == seq![respond(secret, lines[0])] + rr);
            assert forall|k: int| 0 <= k < r.len() - 1 implies #[trigger] r[k] != Feedback::Win
                && r[k] != Feedback::InputFailed by {
                if k > 0 {
                    assert(r[k] == rr[k - 1]);
                }
            }
            if exists|j: int| 0 <= j < lines.len() && parsed_guess(#[trigger] lines[j]) == Some(
                secret,
            ) {
                let j = choose|j: int|
                    0 <= j < lines.len() && parsed_guess(#[trigger] lines[j]) == Some(secret);
                assert(rest[j - 1] == lines[j]);
            }
            if exists|j: int| 0 <= j < rest.len() && parsed_guess(#[trigger] rest[j]) == Some(
                secret,
            ) {
                let j = choose|j: int|
                    0 <= j < rest.len() && parsed_guess(#[trigger] rest[j]) == Some(secret);
                assert(lines[j + 1] == rest[j]);
            }
            if r.last() == Feedback::Win {
                assert(lines[r.len() - 1] == rest[rr.len() - 1]);
            }
        }
    }
}

/// A line that is empty, or whose text starts with a minus sign, once surrounding
/// whitespace is removed, names no guess.
pub proof fn lemma_empty_or_negative_names_no_guess(line: Seq<char>)
    ensures
        trim_spec(line).len() == 0 ==> parsed_guess(line) is None,
        trim_spec(line).len() > 0 && trim_spec(line)[0] == '-' ==> parsed_guess(line) is None,
{
    let d = unsigned_digits(trim_spec(line));
    if trim_spec(line).len() > 0 && trim_spec(line)[0] == '-' {
        assert(d == trim_spec(line));
        assert(!is_digit_spec(d[0]));
    }
}

} // verus!
