//! The mathematical model of the pattern language.
//!
//! [`PatternModel`] is the abstract form of one compiled instruction;
//! [`spec_parse`] says what instruction sequence a pattern text compiles to
//! (or with which error compilation fails), and [`spec_matches`] says when an
//! input line satisfies an instruction sequence.  The executable code in
//! [`crate::matcher`] is verified against these definitions.

use vstd::prelude::*;

verus! {

/// The abstract form of one pattern instruction.  Character sets are modelled
/// as sequences (membership is what matters; duplicates are harmless), and the
/// two branches of an alternation are themselves instruction sequences.
pub enum PatternModel {
    /// Matches exactly one occurrence of the given character.
    Char(char),
    /// Scans for the first ASCII digit in the remaining input.
    Digit,
    /// Scans for the first ASCII alphanumeric-or-underscore character.
    Word,
    /// Matches one character that is a member of the set.
    PositiveCharSet(Seq<char>),
    /// Matches one character that is not a member of the set.
    NegativeCharSet(Seq<char>),
    /// Start anchor; consumes nothing and succeeds exactly while the cursor
    /// still stands at the start of the line.
    Start,
    /// End anchor; consumes nothing and succeeds exactly when the line is
    /// used up.
    End,
    /// Matches a maximal run of one or more copies of the character.
    Plus(char),
    /// Matches zero or one occurrence of the character.
    ZeroOrOne(char),
    /// Matches any single character.
    Dot,
    /// Two independently compiled branches; the left one is tried first.
    Alternative(Seq<PatternModel>, Seq<PatternModel>),
}

/// Why a pattern text fails to compile.
#[derive(Clone, Copy, Debug, PartialEq, Eq, Structural)]
pub enum ParseError {
    /// A backslash followed by anything other than `\`, `d` or `w`,
    /// or a trailing backslash.
    UnsupportedEscape,
    /// A `+` or `?` applied to an instruction that is not a plain literal.
    UnsupportedQuantifier,
    /// A `[` with no closing `]`.
    UnterminatedCharSet,
    /// A `(` with no closing `)`.
    UnterminatedGroup,
}

/// ASCII digit, `'0'` to `'9'`.
pub open spec fn is_ascii_digit_char(c: char) -> bool {
    48 <= c as u32 <= 57
}

/// ASCII alphanumeric or underscore.
pub open spec fn is_word_char(c: char) -> bool {
    is_ascii_digit_char(c) || (65 <= c as u32 <= 90) || (97 <= c as u32 <= 122) || c == '_'
}

/// The digit predicate as a function value, for use with `first_index_from`.
pub open spec fn digit_pred() -> spec_fn(char) -> bool {
    |ch: char| is_ascii_digit_char(ch)
}

/// The word-character predicate as a function value.
pub open spec fn word_pred() -> spec_fn(char) -> bool {
    |ch: char| is_word_char(ch)
}

/// Equality with a fixed character as a function value.
pub open spec fn char_pred(c: char) -> spec_fn(char) -> bool {
    |ch: char| ch == c
}

/// The position of the first character at or after `i` satisfying `f`,
/// or `None` if there is none.
pub open spec fn first_index_from(s: Seq<char>, i: int, f: spec_fn(char) -> bool) -> Option<int>
    decreases s.len() - i,
{
    if i < 0 || i >= s.len() {
        None
    } else if f(s[i]) {
        Some(i)
    } else {
        first_index_from(s, i + 1, f)
    }
}

/// Where `first_index_from` answers `Some(k)`, `k` is in range, satisfies `f`
/// and nothing before it (from `i` on) does; where it answers `None`, nothing
/// from `i` on satisfies `f`.
pub proof fn lemma_first_index_from(s: Seq<char>, i: int, f: spec_fn(char) -> bool)
    requires
        0 <= i,
    ensures
        (match first_index_from(s, i, f) {
            Some(k) => i <= k < s.len() && f(s[k]) && (forall|j: int| i <= j < k ==> !f(s[j])),
            None => forall|j: int| i <= j < s.len() ==> !f(s[j]),
        }),
    decreases s.len() - i,
{
    if i < s.len() && !f(s[i]) {
        lemma_first_index_from(s, i + 1, f);
    }
}

/// A position that satisfies `f`, with nothing satisfying it in between,
/// is exactly what `first_index_from` answers.
pub proof fn lemma_first_index_from_is(s: Seq<char>, i: int, f: spec_fn(char) -> bool, k: int)
    requires
        0 <= i <= k < s.len(),
        f(s[k]),
        forall|j: int| i <= j < k ==> !f(s[j]),
    ensures
        first_index_from(s, i, f) == Some(k),
    decreases k - i,
{
    if i < k {
        lemma_first_index_from_is(s, i + 1, f, k);
    }
}

/// Where nothing from `i` on satisfies `f`, `first_index_from` answers `None`.
pub proof fn lemma_first_index_from_none(s: Seq<char>, i: int, f: spec_fn(char) -> bool)
    requires
        0 <= i,
        forall|j: int| i <= j < s.len() ==> !f(s[j]),
    ensures
        first_index_from(s, i, f) == None::<int>,
    decreases s.len() - i,
{
    if i < s.len() {
        lemma_first_index_from_none(s, i + 1, f);
    }
}

/// `s` with every `|` removed; the raw right branch of a group body keeps all
/// its other characters but drops each further `|`.
pub open spec fn strip_bars(s: Seq<char>) -> Seq<char>
    decreases s.len(),
{
    if s.len() == 0 {
        Seq::empty()
    } else if s[0] == '|' {
        strip_bars(s.subrange(1, s.len() as int))
    } else {
        seq![s[0]] + strip_bars(s.subrange(1, s.len() as int))
    }
}

/// Removing characters never lengthens a sequence.
pub proof fn lemma_strip_bars_len(s: Seq<char>)
    ensures
        strip_bars(s).len() <= s.len(),
    decreases s.len(),
{
    if s.len() > 0 {
        lemma_strip_bars_len(s.subrange(1, s.len() as int));
    }
}

/// How `strip_bars` grows when one character is appended on the right.
pub proof fn lemma_strip_bars_push(s: Seq<char>, c: char)
    ensures
        strip_bars(s.push(c)) == (if c == '|' {
            strip_bars(s)
        } else {
            strip_bars(s).push(c)
        }),
    decreases s.len(),
{
    reveal_with_fuel(strip_bars, 3);
    if s.len() == 0 {
        assert(s.push(c)[0] == c);
        assert(s.push(c).subrange(1, 1) =~= Seq::<char>::empty());
        if c != '|' {
            assert(seq![c] + Seq::<char>::empty() =~= strip_bars(s).push(c));
        }
    } else {
        assert(s.push(c).subrange(1, s.len() as int + 1) =~= s.subrange(1, s.len() as int).push(c));
        lemma_strip_bars_push(s.subrange(1, s.len() as int), c);
        if s[0] != '|' && c != '|' {
            assert(seq![s[0]] + strip_bars(s.subrange(1, s.len() as int)).push(c) =~= (seq![
                s[0],
            ] + strip_bars(s.subrange(1, s.len() as int))).push(c));
        }
    }
}

/// The length of the maximal leading run of `c` in `line`.
pub open spec fn leading_run(line: Seq<char>, c: char) -> int
    decreases line.len(),
{
    if line.len() > 0 && line[0] == c {
        1 + leading_run(line.subrange(1, line.len() as int), c)
    } else {
        0
    }
}

/// The leading run is the longest prefix made of `c` alone: every position
/// inside it holds `c`, and the first position after it (if any) does not.
pub proof fn lemma_leading_run(line: Seq<char>, c: char)
    ensures
        0 <= leading_run(line, c) <= line.len(),
        forall|j: int| 0 <= j < leading_run(line, c) ==> line[j] == c,
        leading_run(line, c) < line.len() ==> line[leading_run(line, c)] != c,
    decreases line.len(),
{
    if line.len() > 0 && line[0] == c {
        let tail = line.subrange(1, line.len() as int);
        lemma_leading_run(tail, c);
        assert forall|j: int| 0 <= j < leading_run(line, c) implies line[j] == c by {
            if j > 0 {
                assert(tail[j - 1] == c);
            }
        }
    }
}

/// What the instruction sequence `pats` consumes of `line`: `Some(n)` when the
/// match succeeds after consuming exactly the first `n` characters, `None`
/// when it fails.  The line is consumed left to right; each instruction takes
/// part of the remaining suffix and hands the rest on, or fails the whole
/// match.  `at_start` says whether the cursor still stands at the very start
/// of the whole line: the start anchor succeeds exactly there, and the end
/// anchor succeeds exactly when the line is used up, so the two anchors
/// constrain where a match may begin and end while every other instruction
/// keeps its general meaning.  Trailing unconsumed input is allowed: this is
/// a prefix-style match.
pub open spec fn spec_consumed(line: Seq<char>, at_start: bool, pats: Seq<PatternModel>) -> Option<
    int,
>
    decreases pats, 0int,
{
    if pats.len() == 0 {
        Some(0)
    } else {
        let rest = pats.subrange(1, pats.len() as int);
        match pats[0] {
            PatternModel::Char(c) => {
                if line.len() > 0 && line[0] == c {
                    spec_consumed_after(line, at_start, 1, rest)
                } else if pats.len() >= 2 && pats[1] == PatternModel::ZeroOrOne(c) {
                    // A literal immediately followed by a `?`-quantified copy
                    // of itself may skip both instructions, consuming two
                    // characters unconditionally.
                    if line.len() >= 2 {
                        spec_consumed_after(line, at_start, 2, pats.subrange(2, pats.len() as int))
                    } else {
                        None
                    }
                } else {
                    None
                }
            }
            PatternModel::Digit => {
                match first_index_from(line, 0, digit_pred()) {
                    Some(k) => spec_consumed_after(line, at_start, k + 1, rest),
                    None => None,
                }
            }
            PatternModel::Word => {
                match first_index_from(line, 0, word_pred()) {
                    Some(k) => spec_consumed_after(line, at_start, k + 1, rest),
                    None => None,
                }
            }
            PatternModel::PositiveCharSet(set) => {
                if line.len() > 0 && set.contains(line[0]) {
                    spec_consumed_after(line, at_start, 1, rest)
                } else {
                    None
                }
            }
            PatternModel::NegativeCharSet(set) => {
                if line.len() > 0 && !set.contains(line[0]) {
                    spec_consumed_after(line, at_start, 1, rest)
                } else {
                    None
                }
            }
            PatternModel::Start => {
                if at_start {
                    spec_consumed(line, at_start, rest)
                } else {
                    None
                }
            }
            PatternModel::End => {
                if line.len() == 0 {
                    spec_consumed(line, at_start, rest)
                } else {
                    None
                }
            }
            PatternModel::Plus(c) => {
                if line.len() > 0 && line[0] == c {
                    spec_consumed_after(line, at_start, leading_run(line, c), rest)
                } else {
                    None
                }
            }
            PatternModel::ZeroOrOne(c) => {
                if line.len() > 0 && line[0] == c {
                    spec_consumed_after(line, at_start, 1, rest)
                } else {
                    spec_consumed(line, at_start, rest)
                }
            }
            PatternModel::Dot => {
                if line.len() > 0 {
                    spec_consumed_after(line, at_start, 1, rest)
                } else {
                    None
                }
            }
            PatternModel::Alternative(a, b) => {
                // The left branch is tried first against the whole remaining
                // suffix; the cursor then advances by exactly what the
                // successful branch consumed before the rest of the sequence
                // runs.
                match spec_consumed(line, at_start, a) {
                    Some(n) => spec_consumed_after(line, at_start, n, rest),
                    None => match spec_consumed(line, at_start, b) {
                        Some(n) => spec_consumed_after(line, at_start, n, rest),
                        None => None,
                    },
                }
            }
        }
    }
}

/// The total consumption once one instruction has taken the first `n`
/// characters: what `rest` consumes of the remaining suffix, plus `n`.  The
/// cursor leaves the start of the line as soon as anything is consumed.
pub open spec fn spec_consumed_after(
    line: Seq<char>,
    at_start: bool,
    n: int,
    rest: Seq<PatternModel>,
) -> Option<int>
    recommends
        0 <= n <= line.len(),
    decreases rest, 1int,
{
    match spec_consumed(line.subrange(n, line.len() as int), at_start && n == 0, rest) {
        Some(m) => Some(n + m),
        None => None,
    }
}

/// Does `line` satisfy the instruction sequence `pats`?  `at_start` says
/// whether the cursor stands at the very start of the whole line.
pub open spec fn spec_matches(line: Seq<char>, at_start: bool, pats: Seq<PatternModel>) -> bool {
    spec_consumed(line, at_start, pats) is Some
}

/// A successful match never consumes more than the line holds.
pub proof fn lemma_consumed_bound(line: Seq<char>, at_start: bool, pats: Seq<PatternModel>)
    ensures
        (match spec_consumed(line, at_start, pats) {
            Some(n) => 0 <= n <= line.len(),
            None => true,
        }),
    decreases pats, 0int,
{
    if pats.len() > 0 {
        let rest = pats.subrange(1, pats.len() as int);
        match pats[0] {
            PatternModel::Char(c) => {
                if line.len() > 0 && line[0] == c {
                    lemma_consumed_after_bound(line, at_start, 1, rest);
                } else if pats.len() >= 2 && pats[1] == PatternModel::ZeroOrOne(c) {
                    if line.len() >= 2 {
                        lemma_consumed_after_bound(
                            line,
                            at_start,
                            2,
                            pats.subrange(2, pats.len() as int),
                        );
                    }
                }
            }
            PatternModel::Digit => {
                lemma_first_index_from(line, 0, digit_pred());
                match first_index_from(line, 0, digit_pred()) {
                    Some(k) => {
                        lemma_consumed_after_bound(line, at_start, k + 1, rest);
                    }
                    None => {}
                }
            }
            PatternModel::Word => {
                lemma_first_index_from(line, 0, word_pred());
                match first_index_from(line, 0, word_pred()) {
                    Some(k) => {
                        lemma_consumed_after_bound(line, at_start, k + 1, rest);
                    }
                    None => {}
                }
            }
            PatternModel::PositiveCharSet(set) => {
                if line.len() > 0 && set.contains(line[0]) {
                    lemma_consumed_after_bound(line, at_start, 1, rest);
                }
            }
            PatternModel::NegativeCharSet(set) => {
                if line.len() > 0 && !set.contains(line[0]) {
                    lemma_consumed_after_bound(line, at_start, 1, rest);
                }
            }
            PatternModel::Start => {
                lemma_consumed_bound(line, at_start, rest);
            }
            PatternModel::End => {
                lemma_consumed_bound(line, at_start, rest);
            }
            PatternModel::Plus(c) => {
                if line.len() > 0 && line[0] == c {
                    lemma_leading_run(line, c);
                    lemma_consumed_after_bound(line, at_start, leading_run(line, c), rest);
                }
            }
            PatternModel::ZeroOrOne(c) => {
                if line.len() > 0 && line[0] == c {
                    lemma_consumed_after_bound(line, at_start, 1, rest);
                } else {
                    lemma_consumed_bound(line, at_start, rest);
                }
            }
            PatternModel::Dot => {
                if line.len() > 0 {
                    lemma_consumed_after_bound(line, at_start, 1, rest);
                }
            }
            PatternModel::Alternative(a, b) => {
                lemma_consumed_bound(line, at_start, a);
                lemma_consumed_bound(line, at_start, b);
                match spec_consumed(line, at_start, a) {
                    Some(n) => {
                        lemma_consumed_after_bound(line, at_start, n, rest);
                    }
                    None => {
                        match spec_consumed(line, at_start, b) {
                            Some(n) => {
                                lemma_consumed_after_bound(line, at_start, n, rest);
                            }
                            None => {}
                        }
                    }
                }
            }
        }
    }
}

/// The bound, after one instruction has taken `n` characters.
pub proof fn lemma_consumed_after_bound(
    line: Seq<char>,
    at_start: bool,
    n: int,
    rest: Seq<PatternModel>,
)
    requires
        0 <= n <= line.len(),
    ensures
        (match spec_consumed_after(line, at_start, n, rest) {
            Some(m) => 0 <= m <= line.len(),
            None => true,
        }),
    decreases rest, 1int,
{
    lemma_consumed_bound(line.subrange(n, line.len() as int), at_start && n == 0, rest);
}

/// What compiling the pattern text `p` produces, starting at position `i` with
/// the instructions `acc` already emitted: the finished instruction sequence,
/// or the error that aborts compilation.  One token is handled per step, in
/// the grammar's priority order.  A `^` with nothing before it becomes an
/// ordinary leading start-anchor instruction; an end anchor stops the scan,
/// so it is always the last instruction of its sequence.
pub open spec fn spec_parse_from(p: Seq<char>, i: int, acc: Seq<PatternModel>) -> Result<
    Seq<PatternModel>,
    ParseError,
>
    recommends
        0 <= i <= p.len(),
    decreases p.len() - i, 0int,
{
    if i < 0 || i >= p.len() {
        Ok(acc)
    } else {
        let c = p[i];
        if c == '\\' {
            if i + 1 < p.len() {
                let d = p[i + 1];
                if d == '\\' {
                    spec_parse_from(p, i + 2, acc.push(PatternModel::Char('\\')))
                } else if d == 'd' {
                    spec_parse_from(p, i + 2, acc.push(PatternModel::Digit))
                } else if d == 'w' {
                    spec_parse_from(p, i + 2, acc.push(PatternModel::Word))
                } else {
                    Err(ParseError::UnsupportedEscape)
                }
            } else {
                Err(ParseError::UnsupportedEscape)
            }
        } else if c == '+' {
            if acc.len() == 0 {
                spec_parse_from(p, i + 1, acc.push(PatternModel::Char('+')))
            } else {
                match acc.last() {
                    PatternModel::Char(ch) => spec_parse_from(
                        p,
                        i + 1,
                        acc.subrange(0, acc.len() - 1).push(PatternModel::Plus(ch)),
                    ),
                    _ => Err(ParseError::UnsupportedQuantifier),
                }
            }
        } else if c == '?' {
            if acc.len() == 0 {
                spec_parse_from(p, i + 1, acc.push(PatternModel::Char('?')))
            } else {
                match acc.last() {
                    PatternModel::Char(ch) => spec_parse_from(
                        p,
                        i + 1,
                        acc.subrange(0, acc.len() - 1).push(PatternModel::ZeroOrOne(ch)),
                    ),
                    _ => Err(ParseError::UnsupportedQuantifier),
                }
            }
        } else if c == '.' {
            spec_parse_from(p, i + 1, acc.push(PatternModel::Dot))
        } else if c == '^' {
            if acc.len() > 0 {
                spec_parse_from(p, i + 1, acc.push(PatternModel::Char('^')))
            } else {
                // A leading start anchor becomes an ordinary first
                // instruction; the rest of the text is compiled as usual.
                spec_parse_from(p, i + 1, acc.push(PatternModel::Start))
            }
        } else if c == '$' {
            // An end anchor ends the scan.
            Ok(acc.push(PatternModel::End))
        } else if c == '[' {
            let neg = i + 1 < p.len() && p[i + 1] == '^';
            let body_start = if neg {
                i + 2
            } else {
                i + 1
            };
            if body_start >= p.len() {
                Err(ParseError::UnterminatedCharSet)
            } else {
                // A `]` immediately after the optional `^` is a member, not
                // the terminator, so the closing bracket is looked for one
                // position further on.
                match first_index_from(p, body_start + 1, char_pred(']')) {
                    Some(close) => {
                        proof {
                            lemma_first_index_from(p, body_start + 1, char_pred(']'));
                        }
                        let members = p.subrange(body_start, close);
                        let tok = if neg {
                            PatternModel::NegativeCharSet(members)
                        } else {
                            PatternModel::PositiveCharSet(members)
                        };
                        spec_parse_from(p, close + 1, acc.push(tok))
                    }
                    None => Err(ParseError::UnterminatedCharSet),
                }
            }
        } else if c == '(' {
            match first_index_from(p, i + 1, char_pred(')')) {
                Some(close) => {
                    proof {
                        lemma_first_index_from(p, i + 1, char_pred(')'));
                    }
                    let body = p.subrange(i + 1, close);
                    let bar = first_index_from(body, 0, char_pred('|'));
                    let left = match bar {
                        Some(b) => body.subrange(0, b),
                        None => body,
                    };
                    let right = match bar {
                        Some(b) => strip_bars(body.subrange(b + 1, body.len() as int)),
                        None => Seq::empty(),
                    };
                    proof {
                        lemma_first_index_from(body, 0, char_pred('|'));
                        if bar is Some {
                            lemma_strip_bars_len(
                                body.subrange(bar->Some_0 + 1, body.len() as int),
                            );
                        }
                    }
                    match spec_parse(left) {
                        Ok(lm) => match spec_parse(right) {
                            Ok(rm) => spec_parse_from(
                                p,
                                close + 1,
                                acc.push(PatternModel::Alternative(lm, rm)),
                            ),
                            Err(e) => Err(e),
                        },
                        Err(e) => Err(e),
                    }
                }
                None => Err(ParseError::UnterminatedGroup),
            }
        } else {
            spec_parse_from(p, i + 1, acc.push(PatternModel::Char(c)))
        }
    }
}

/// What compiling the pattern text `p` produces.  Compilation is a pure
/// function of the text: the same text always compiles to the same
/// instruction sequence, or fails with the same error.
pub open spec fn spec_parse(p: Seq<char>) -> Result<Seq<PatternModel>, ParseError>
    decreases p.len(), 1int,
{
    spec_parse_from(p, 0, Seq::empty())
}

/// Does the compiled sequence `pats` accept `line`?  The anchors decide where
/// a match may stand.  A sequence headed by the start anchor, like any
/// unanchored sequence, is matched from the beginning of the line: the engine
/// never scans over start offsets of its own.  A sequence that merely ends
/// with the end anchor constrains only where the match must end, so it is
/// tried at every start offset, and accepts when some alignment lets it finish
/// exactly at the end of the line.
pub open spec fn spec_pattern_matches(line: Seq<char>, pats: Seq<PatternModel>) -> bool {
    if pats.len() > 0 && !(pats[0] is Start) && pats.last() is End {
        exists|off: int|
            0 <= off <= line.len() && spec_matches(
                line.subrange(off, line.len() as int),
                off == 0,
                pats,
            )
    } else {
        spec_matches(line, true, pats)
    }
}

/// The whole match operation on one input line: the pattern is compiled, with
/// anchors as ordinary leading or trailing instructions, and the line is
/// walked against the instruction sequence; a pattern that fails to compile
/// yields its error.
pub open spec fn spec_match_pattern(line: Seq<char>, pattern: Seq<char>) -> Result<
    bool,
    ParseError,
> {
    match spec_parse(pattern) {
        Ok(pats) => Ok(spec_pattern_matches(line, pats)),
        Err(e) => Err(e),
    }
}

} // verus!
