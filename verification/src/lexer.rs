use crate::tokens::Token;
use vstd::prelude::*;
use vstd::string::*;

verus! {

/// A decimal digit character, `'0'` through `'9'`.
pub open spec fn is_digit(c: char) -> bool {
    '0' <= c && c <= '9'
}

/// The numeric value of one digit character.
pub open spec fn digit_value(c: char) -> int {
    c as u32 - '0' as u32
}

/// The length of the contiguous run of digit characters of `s` that starts
/// at index `i` (zero if `i` is out of range or does not sit on a digit).
pub open spec fn digit_run_len(s: Seq<char>, i: int) -> nat
    decreases s.len() - i,
{
    if i < 0 || i >= s.len() || !is_digit(s[i]) {
        0
    } else {
        1 + digit_run_len(s, i + 1)
    }
}

/// The maximal digit run of `s` that starts at index `i`.
pub open spec fn run_at(s: Seq<char>, i: int) -> Seq<char>
    recommends
        0 <= i <= s.len(),
{
    s.subrange(i, i + digit_run_len(s, i))
}

/// The standard base-10 interpretation of a sequence of digit characters.
pub open spec fn digits_value(s: Seq<char>) -> int
    recommends
        forall|i: int| 0 <= i < s.len() ==> is_digit(s[i]),
    decreases s.len(),
{
    if s.len() == 0 {
        0
    } else {
        digits_value(s.drop_last()) * 10 + digit_value(s.last())
    }
}

/// The digit run starting at `i` never extends past the end of `s`, and a
/// digit at `i` makes it at least one character long.
pub proof fn lemma_digit_run_len_bounds(s: Seq<char>, i: int)
    requires
        0 <= i <= s.len(),
    ensures
        i + digit_run_len(s, i) <= s.len(),
        i < s.len() && is_digit(s[i]) ==> digit_run_len(s, i) >= 1,
    decreases s.len() - i,
{
    if i < s.len() && is_digit(s[i]) {
        lemma_digit_run_len_bounds(s, i + 1);
    }
}

/// Every character inside the digit run starting at `i` is a digit, and the
/// run is maximal: it stops exactly at the end of the input or at the first
/// non-digit character.
pub proof fn lemma_run_chars(s: Seq<char>, i: int)
    requires
        0 <= i <= s.len(),
    ensures
        forall|k: int| i <= k < i + digit_run_len(s, i) ==> is_digit(#[trigger] s[k]),
        i + digit_run_len(s, i) == s.len() || !is_digit(s[i + digit_run_len(s, i)]),
    decreases s.len() - i,
{
    lemma_digit_run_len_bounds(s, i);
    if i < s.len() && is_digit(s[i]) {
        lemma_run_chars(s, i + 1);
    }
}

/// The base-10 value of a sequence of digit characters is non-negative.
pub proof fn lemma_digits_value_nonneg(r: Seq<char>)
    requires
        forall|k: int| 0 <= k < r.len() ==> is_digit(#[trigger] r[k]),
    ensures
        digits_value(r) >= 0,
    decreases r.len(),
{
    if r.len() > 0 {
        lemma_digits_value_nonneg(r.drop_last());
    }
}

/// Among the prefixes of a sequence of digit characters, a longer prefix
/// never has a smaller base-10 value, so every prefix's value is bounded by
/// the whole sequence's value.
pub proof fn lemma_digits_value_prefix_le(r: Seq<char>, k: int)
    requires
        0 <= k <= r.len(),
        forall|j: int| 0 <= j < r.len() ==> is_digit(#[trigger] r[j]),
    ensures
        digits_value(r.subrange(0, k)) <= digits_value(r),
    decreases r.len() - k,
{
    if k == r.len() {
        assert(r.subrange(0, k) =~= r);
    } else {
        let p = r.subrange(0, k);
        let q = r.subrange(0, k + 1);
        assert(q.drop_last() =~= p);
        lemma_digits_value_nonneg(p);
        assert(digits_value(q) == digits_value(p) * 10 + digit_value(r[k]));
        lemma_digits_value_prefix_le(r, k + 1);
    }
}

/// The token sequence that scanning `s` from index `i` to the end produces:
/// `+` and `-` become `Plus` and `Minus`, a maximal digit run becomes one
/// `Number` holding its base-10 value, and any other character is skipped.
pub open spec fn tokens_from(s: Seq<char>, i: int) -> Seq<Token>
    decreases s.len() - i,
{
    if i < 0 || i >= s.len() {
        Seq::empty()
    } else if s[i] == '+' {
        seq![Token::Plus] + tokens_from(s, i + 1)
    } else if s[i] == '-' {
        seq![Token::Minus] + tokens_from(s, i + 1)
    } else if is_digit(s[i]) {
        proof {
            lemma_digit_run_len_bounds(s, i);
        }
        seq![Token::Number(#[verifier::truncate] (digits_value(run_at(s, i)) as usize))]
            + tokens_from(s, i + digit_run_len(s, i))
    } else {
        tokens_from(s, i + 1)
    }
}

/// The token sequence of the whole input `s`.
pub open spec fn tokens_of(s: Seq<char>) -> Seq<Token> {
    tokens_from(s, 0)
}

/// How far one produce-next-token call moves the cursor from position `i`:
/// not at all at end of input, past the whole run on a digit, and past one
/// character otherwise.
pub open spec fn step_width(s: Seq<char>, i: int) -> int {
    if i >= s.len() {
        0
    } else if is_digit(s[i]) {
        digit_run_len(s, i) as int
    } else {
        1
    }
}

/// The token that one produce-next-token call at position `i` emits: `None`
/// both at end of input and on a skipped unrecognized character.
pub open spec fn step_token(s: Seq<char>, i: int) -> Option<Token> {
    if i >= s.len() {
        None
    } else if s[i] == '+' {
        Some(Token::Plus)
    } else if s[i] == '-' {
        Some(Token::Minus)
    } else if is_digit(s[i]) {
        Some(Token::Number(#[verifier::truncate] (digits_value(run_at(s, i)) as usize)))
    } else {
        None
    }
}

/// One produce-next-token step accounts exactly for the front of the
/// remaining token sequence: the emitted token (if any) followed by the
/// tokens of the rest of the input.
pub proof fn lemma_tokens_from_step(s: Seq<char>, i: int)
    requires
        0 <= i <= s.len(),
    ensures
        step_token(s, i) matches Some(t) ==> tokens_from(s, i) == seq![t] + tokens_from(
            s,
            i + step_width(s, i),
        ),
        step_token(s, i) is None ==> tokens_from(s, i) == tokens_from(s, i + step_width(s, i)),
{
}

/// Every maximal digit run of `s` that starts at or after index `i` has a
/// base-10 value that fits in `usize`.
pub open spec fn runs_fit_from(s: Seq<char>, i: int) -> bool {
    forall|j: int|
        i <= j < s.len() && is_digit(#[trigger] s[j]) ==> digits_value(run_at(s, j)) <= usize::MAX
}

proof fn lemma_operators_only_from(s: Seq<char>, i: int)
    requires
        0 <= i <= s.len(),
        forall|j: int| 0 <= j < s.len() ==> s[j] == '+' || s[j] == '-',
    ensures
        tokens_from(s, i).len() == s.len() - i,
        forall|j: int|
            i <= j < s.len() ==> tokens_from(s, i)[j - i] == (if s[j] == '+' {
                Token::Plus
            } else {
                Token::Minus
            }),
    decreases s.len() - i,
{
    if i < s.len() {
        lemma_operators_only_from(s, i + 1);
    }
}

/// For inputs consisting solely of the operator characters `+` and `-`,
/// the token sequence has the same length as the input and maps each
/// character positionally, in order: `+` to `Plus` and `-` to `Minus`.
pub proof fn lemma_operators_only(s: Seq<char>)
    requires
        forall|j: int| 0 <= j < s.len() ==> s[j] == '+' || s[j] == '-',
    ensures
        tokens_of(s).len() == s.len(),
        forall|j: int|
            0 <= j < s.len() ==> tokens_of(s)[j] == (if s[j] == '+' {
                Token::Plus
            } else {
                Token::Minus
            }),
{
    lemma_operators_only_from(s, 0);
}

/// For the maximal digit run starting at position `i`, the scan emits
/// exactly one `Number` token whose value is the standard base-10
/// interpretation of the whole run, and consumes the entire run as a
/// single step: the run is never split across two `Number` tokens, and it
/// stops exactly at the end of the input or at the first non-digit
/// character.
pub proof fn lemma_number_run(s: Seq<char>, i: int)
    requires
        0 <= i < s.len(),
        is_digit(s[i]),
    ensures
        1 <= digit_run_len(s, i),
        i + digit_run_len(s, i) <= s.len(),
        forall|k: int| i <= k < i + digit_run_len(s, i) ==> is_digit(#[trigger] s[k]),
        i + digit_run_len(s, i) == s.len() || !is_digit(s[i + digit_run_len(s, i)]),
        tokens_from(s, i) == seq![
            Token::Number(#[verifier::truncate] (digits_value(run_at(s, i)) as usize)),
        ] + tokens_from(s, i + digit_run_len(s, i)),
{
    lemma_digit_run_len_bounds(s, i);
    lemma_run_chars(s, i);
}

/// A lazy, finite, forward-only scanner over a borrowed input string.
///
/// The scanner holds the full input (read-only, borrowed for the scanner's
/// lifetime) and a cursor that strictly advances and never rewinds. The
/// cursor is measured in characters rather than bytes, so that it always
/// sits on a character boundary by construction.
pub struct Lexer<'src> {
    /// The full input text.
    input: &'src str,
    /// The number of characters of the input: where the cursor terminates.
    length: usize,
    /// The cursor: how many characters of the input have been consumed.
    position: usize,
}

impl<'src> Lexer<'src> {
    /// The input as a sequence of characters.
    pub closed spec fn src(&self) -> Seq<char> {
        self.input@
    }

    /// The cursor, as a character index into the input.
    pub closed spec fn cursor(&self) -> int {
        self.position as int
    }

    /// The cached character count agrees with the input.
    pub closed spec fn inv(&self) -> bool {
        self.length == self.input@.len()
    }

    /// Well-formedness: the cursor sits between the start and the end of
    /// the input, and never outside it.
    pub open spec fn wf(&self) -> bool {
        &&& self.inv()
        &&& 0 <= self.cursor() <= self.src().len()
    }

    /// Creates a scanner over `input` with the cursor at the start.
    ///
    /// The scanner makes no guarantee about how to lex nothing, so empty
    /// input is refused at construction: callers must supply at least one
    /// character.
    pub fn new(input: &'src str) -> (lexer: Self)
        requires
            input@.len() > 0,
        ensures
            lexer.wf(),
            lexer.src() == input@,
            lexer.cursor() == 0,
    {
        let length: usize = input.unicode_len();
        Lexer { input, length, position: 0 }
    }

    /// Lexes the maximal contiguous run of decimal digit characters at the
    /// cursor into one `Number` token carrying the run's base-10 value, and
    /// advances the cursor past the whole run — stopping exactly at the
    /// first non-digit character, which stays unconsumed.
    ///
    /// Callers must only invoke this once the lookahead character has been
    /// confirmed to be a digit (a zero-width run is a logic invariant
    /// violation), and only when the run's value is representable in the
    /// native unsigned integer width (overflow is a fatal condition).
    pub fn lex_number(&mut self) -> (t: Option<Token>)
        requires
            old(self).wf(),
            old(self).cursor() < old(self).src().len(),
            is_digit(old(self).src()[old(self).cursor()]),
            digits_value(run_at(old(self).src(), old(self).cursor())) <= usize::MAX,
        ensures
            final(self).wf(),
            final(self).src() == old(self).src(),
            final(self).cursor() == old(self).cursor() + digit_run_len(
                old(self).src(),
                old(self).cursor(),
            ),
            t == Some(
                Token::Number(
                    digits_value(run_at(old(self).src(), old(self).cursor())) as usize,
                ),
            ),
            final(self).cursor() > old(self).cursor(),
    {
        let ghost s = self.input@;
        let ghost start = self.position as int;
        let ghost run = run_at(s, start);
        let ghost run_len = digit_run_len(s, start);
        proof {
            lemma_digit_run_len_bounds(s, start);
            lemma_run_chars(s, start);
        }
        let mut value: usize = 0;
        loop
            invariant
                self.inv(),
                self.input@ == s,
                run == run_at(s, start),
                run_len == digit_run_len(s, start),
                start <= self.position <= start + run_len <= s.len(),
                digits_value(run) <= usize::MAX,
                forall|k: int| start <= k < start + run_len ==> is_digit(#[trigger] s[k]),
                start + run_len == s.len() || !is_digit(s[start + run_len]),
                value == digits_value(s.subrange(start, self.position as int)),
            ensures
                self.position == start + run_len,
                value == digits_value(run),
            decreases s.len() - self.position,
        {
            if self.position >= self.length {
                proof {
                    assert(s.subrange(start, self.position as int) =~= run);
                }
                break;
            }
            let c = self.input.get_char(self.position);
            if !('0' <= c && c <= '9') {
                proof {
                    assert(self.position == start + run_len);
                    assert(s.subrange(start, self.position as int) =~= run);
                }
                break;
            }
            let d: usize = (c as u32 - '0' as u32) as usize;
            proof {
                // The cursor sits strictly inside the run, so consuming one
                // more digit keeps the accumulated value a prefix value of
                // the run, which is bounded by the whole run's value.
                assert(self.position < start + run_len);
                let consumed = s.subrange(start, self.position as int);
                let extended = s.subrange(start, self.position + 1);
                assert(extended.drop_last() =~= consumed);
                assert(extended =~= run.subrange(0, self.position + 1 - start));
                assert(forall|j: int| 0 <= j < run.len() ==> is_digit(#[trigger] run[j]));
                lemma_digits_value_prefix_le(run, self.position + 1 - start);
                lemma_digits_value_nonneg(consumed);
                assert(digits_value(extended) == digits_value(consumed) * 10 + digit_value(c));
            }
            value = value * 10 + d;
            self.position = self.position + 1;
        }
        Some(Token::Number(value))
    }

    /// Produces the next token. The call inspects the lookahead character
    /// without committing to its removal: at end of input it signals
    /// end-of-sequence by returning `None` and leaving the cursor in place
    /// (so further calls keep signaling it, and no prior token is ever
    /// re-emitted); on `+` or `-` it consumes that one character and returns
    /// the operator token; on a digit it delegates to the number-lexing
    /// algorithm; on any other character it silently skips one character
    /// and emits no token for that call.
    ///
    /// A digit run whose value exceeds the native unsigned integer width is
    /// a fatal condition, so callers rule it out up front.
    pub fn next_token(&mut self) -> (t: Option<Token>)
        requires
            old(self).wf(),
            old(self).cursor() < old(self).src().len() && is_digit(
                old(self).src()[old(self).cursor()],
            ) ==> digits_value(run_at(old(self).src(), old(self).cursor())) <= usize::MAX,
        ensures
            final(self).wf(),
            final(self).src() == old(self).src(),
            final(self).cursor() == old(self).cursor() + step_width(
                old(self).src(),
                old(self).cursor(),
            ),
            t == step_token(old(self).src(), old(self).cursor()),
            final(self).cursor() >= old(self).cursor(),
            old(self).cursor() < old(self).src().len() ==> final(self).cursor() > old(
                self,
            ).cursor(),
    {
        if self.position >= self.length {
            return None;
        }
        let c = self.input.get_char(self.position);
        if c == '+' {
            self.position = self.position + 1;
            Some(Token::Plus)
        } else if c == '-' {
            self.position = self.position + 1;
            Some(Token::Minus)
        } else if '0' <= c && c <= '9' {
            proof {
                lemma_digit_run_len_bounds(self.input@, self.position as int);
            }
            self.lex_number()
        } else {
            self.position = self.position + 1;
            None
        }
    }

    /// Drains the scanner: produces tokens one call at a time until the
    /// cursor reaches the end of the input, collecting every emitted token
    /// into an ordered sequence. Calls that skip an unrecognized character
    /// contribute nothing.
    pub fn collect_tokens(&mut self) -> (tokens: Vec<Token>)
        requires
            old(self).wf(),
            runs_fit_from(old(self).src(), old(self).cursor()),
        ensures
            final(self).wf(),
            final(self).src() == old(self).src(),
            final(self).cursor() == old(self).src().len(),
            tokens@ == tokens_from(old(self).src(), old(self).cursor()),
    {
        let ghost s = self.input@;
        let ghost start = self.position as int;
        let mut tokens: Vec<Token> = Vec::new();
        while self.position < self.length
            invariant
                self.inv(),
                self.input@ == s,
                start <= self.position <= s.len(),
                runs_fit_from(s, start),
                tokens@ + tokens_from(s, self.position as int) == tokens_from(s, start),
            decreases s.len() - self.position,
        {
            let ghost pos = self.position as int;
            proof {
                lemma_tokens_from_step(s, pos);
            }
            let t = self.next_token();
            if let Some(tok) = t {
                tokens.push(tok);
            }
            proof {
                assert(tokens@ + tokens_from(s, self.position as int) =~= tokens_from(s, start));
            }
        }
        proof {
            assert(tokens@ + tokens_from(s, self.position as int) =~= tokens@);
        }
        tokens
    }
}

} // verus!
