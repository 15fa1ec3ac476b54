//! The pattern compiler and the matching engine.
//!
//! [`parse_pattern`] compiles a pattern text into a sequence of
//! [`RegexPattern`] instructions, [`match_with_pattern`] walks an input line
//! against such a sequence, and [`match_pattern`] is the whole operation:
//! compilation, then the match, with the anchors as ordinary instructions that
//! constrain where the match may begin and end.  Each function is verified
//! against the corresponding spec function of [`crate::model`].

use vstd::prelude::*;

use crate::model::ParseError;
use crate::model::PatternModel;
use crate::model::char_pred;
use crate::model::digit_pred;
use crate::model::first_index_from;
use crate::model::is_ascii_digit_char;
use crate::model::is_word_char;
use crate::model::leading_run;
use crate::model::lemma_first_index_from_is;
use crate::model::lemma_first_index_from_none;
use crate::model::lemma_leading_run;
use crate::model::lemma_strip_bars_len;
use crate::model::lemma_strip_bars_push;
use crate::model::word_pred;
use crate::model::spec_match_pattern;
use crate::model::spec_consumed;
use crate::model::spec_consumed_after;
use crate::model::spec_matches;
use crate::model::spec_pattern_matches;
use crate::model::spec_parse;
use crate::model::spec_parse_from;
use crate::model::strip_bars;

verus! {

/// One compiled pattern instruction.  Its mathematical form is given by
/// [`pat_view`].
#[derive(Debug, PartialEq)]
pub enum RegexPattern {
    /// Matches exactly one occurrence of a specific character.
    Char(char),
    /// Scans for the first ASCII digit in the remaining input (`\d`).
    Digit,
    /// Scans for the first ASCII alphanumeric-or-underscore character (`\w`).
    Word,
    /// Matches one character that is a member of the set (`[abc]`).
    PositiveCharSet(Vec<char>),
    /// Matches one character that is not a member of the set (`[^abc]`).
    NegativeCharSet(Vec<char>),
    /// Start anchor (`^`); only ever a leading instruction, pinning the match
    /// to the start of the line.
    Start,
    /// End anchor (`$`); only ever the trailing instruction, pinning the end
    /// of the match to the end of the line.
    End,
    /// Matches a maximal run of one or more copies of the character (`a+`).
    Plus(char),
    /// Matches zero or one occurrence of the character (`a?`).
    ZeroOrOne(char),
    /// Matches any single character (`.`).
    Dot,
    /// Two independently compiled branches (`(a|b)`), the left tried first.
    Alternative(Vec<RegexPattern>, Vec<RegexPattern>),
}

/// The abstract form of one instruction.
pub open spec fn pat_view(p: RegexPattern) -> PatternModel
    decreases p,
{
    match p {
        RegexPattern::Char(c) => PatternModel::Char(c),
        RegexPattern::Digit => PatternModel::Digit,
        RegexPattern::Word => PatternModel::Word,
        RegexPattern::PositiveCharSet(v) => PatternModel::PositiveCharSet(v@),
        RegexPattern::NegativeCharSet(v) => PatternModel::NegativeCharSet(v@),
        RegexPattern::Start => PatternModel::Start,
        RegexPattern::End => PatternModel::End,
        RegexPattern::Plus(c) => PatternModel::Plus(c),
        RegexPattern::ZeroOrOne(c) => PatternModel::ZeroOrOne(c),
        RegexPattern::Dot => PatternModel::Dot,
        RegexPattern::Alternative(a, b) => PatternModel::Alternative(pats_view(a@), pats_view(b@)),
    }
}

/// The abstract form of an instruction sequence, element by element.
pub open spec fn pats_view(ps: Seq<RegexPattern>) -> Seq<PatternModel>
    decreases ps,
{
    if ps.len() == 0 {
        Seq::empty()
    } else {
        seq![pat_view(ps[0])] + pats_view(ps.subrange(1, ps.len() as int))
    }
}

/// `pats_view` maps the sequence element by element.
pub proof fn lemma_pats_view(ps: Seq<RegexPattern>)
    ensures
        pats_view(ps).len() == ps.len(),
        forall|k: int| 0 <= k < ps.len() ==> pats_view(ps)[k] == pat_view(ps[k]),
    decreases ps.len(),
{
    if ps.len() > 0 {
        lemma_pats_view(ps.subrange(1, ps.len() as int));
    }
}

/// Appending an instruction appends its abstract form.
pub proof fn lemma_pats_view_push(ps: Seq<RegexPattern>, x: RegexPattern)
    ensures
        pats_view(ps.push(x)) == pats_view(ps).push(pat_view(x)),
{
    lemma_pats_view(ps);
    lemma_pats_view(ps.push(x));
    assert(pats_view(ps.push(x)) =~= pats_view(ps).push(pat_view(x)));
}

/// Taking a subrange commutes with taking the abstract form.
pub proof fn lemma_pats_view_subrange(ps: Seq<RegexPattern>, a: int, b: int)
    requires
        0 <= a <= b <= ps.len(),
    ensures
        pats_view(ps.subrange(a, b)) == pats_view(ps).subrange(a, b),
{
    lemma_pats_view(ps);
    lemma_pats_view(ps.subrange(a, b));
    assert(pats_view(ps.subrange(a, b)) =~= pats_view(ps).subrange(a, b));
}

/// The abstract form of a compilation result: the views of the instructions on
/// success, the error itself on failure.
pub open spec fn parse_result_view(r: Result<Vec<RegexPattern>, ParseError>) -> Result<
    Seq<PatternModel>,
    ParseError,
> {
    match r {
        Ok(v) => Ok(pats_view(v@)),
        Err(e) => Err(e),
    }
}

/// The characters of `s`, in order.
fn chars_of(s: &str) -> (r: Vec<char>)
    ensures
        r@ == s@,
{
    let n = s.unicode_len();
    let mut v: Vec<char> = Vec::new();
    let mut i: usize = 0;
    while i < n
        invariant
            i <= n,
            n == s@.len(),
            v@ == s@.subrange(0, i as int),
        decreases n - i,
    {
        let c = s.get_char(i);
        v.push(c);
        i = i + 1;
        proof {
            assert(v@ =~= s@.subrange(0, i as int));
        }
    }
    proof {
        assert(s@.subrange(0, n as int) =~= s@);
    }
    v
}

/// ASCII digit test.
fn is_digit_exec(c: char) -> (b: bool)
    ensures
        b == is_ascii_digit_char(c),
{
    let u = c as u32;
    48 <= u && u <= 57
}

/// ASCII alphanumeric-or-underscore test.
fn is_word_exec(c: char) -> (b: bool)
    ensures
        b == is_word_char(c),
{
    let u = c as u32;
    (48 <= u && u <= 57) || (65 <= u && u <= 90) || (97 <= u && u <= 122) || c == '_'
}

/// Is `c` a member of `set`?
fn set_contains(set: &Vec<char>, c: char) -> (b: bool)
    ensures
        b == set@.contains(c),
{
    let mut t: usize = 0;
    while t < set.len()
        invariant
            t <= set@.len(),
            forall|m: int| 0 <= m < t ==> set@[m] != c,
        decreases set@.len() - t,
    {
        if set[t] == c {
            proof {
                assert(set@[t as int] == c);
                assert(set@.contains(c));
            }
            return true;
        }
        t = t + 1;
    }
    false
}

/// The first position at or after `pos` that holds an ASCII digit.
fn scan_digit(line: &Vec<char>, pos: usize) -> (r: Option<usize>)
    requires
        pos <= line@.len(),
    ensures
        (match r {
            Some(j) => pos <= j < line@.len() && is_ascii_digit_char(line@[j as int]) && (forall|
                m: int,
            |
                pos <= m < j ==> !is_ascii_digit_char(line@[m])),
            None => forall|m: int| pos <= m < line@.len() ==> !is_ascii_digit_char(line@[m]),
        }),
{
    let mut j = pos;
    while j < line.len()
        invariant
            pos <= j <= line@.len(),
            forall|m: int| pos <= m < j ==> !is_ascii_digit_char(line@[m]),
        decreases line@.len() - j,
    {
        if is_digit_exec(line[j]) {
            return Some(j);
        }
        j = j + 1;
    }
    None
}

/// The first position at or after `pos` that holds a word character.
fn scan_word(line: &Vec<char>, pos: usize) -> (r: Option<usize>)
    requires
        pos <= line@.len(),
    ensures
        (match r {
            Some(j) => pos <= j < line@.len() && is_word_char(line@[j as int]) && (forall|m: int|
                pos <= m < j ==> !is_word_char(line@[m])),
            None => forall|m: int| pos <= m < line@.len() ==> !is_word_char(line@[m]),
        }),
{
    let mut j = pos;
    while j < line.len()
        invariant
            pos <= j <= line@.len(),
            forall|m: int| pos <= m < j ==> !is_word_char(line@[m]),
        decreases line@.len() - j,
    {
        if is_word_exec(line[j]) {
            return Some(j);
        }
        j = j + 1;
    }
    None
}

/// A copy of `chars[from..to]`.
fn copy_range(chars: &Vec<char>, from: usize, to: usize) -> (r: Vec<char>)
    requires
        from <= to <= chars@.len(),
    ensures
        r@ == chars@.subrange(from as int, to as int),
{
    let mut r: Vec<char> = Vec::new();
    let mut j = from;
    while j < to
        invariant
            from <= j <= to <= chars@.len(),
            r@ == chars@.subrange(from as int, j as int),
        decreases to - j,
    {
        r.push(chars[j]);
        j = j + 1;
        proof {
            assert(r@ =~= chars@.subrange(from as int, j as int));
        }
    }
    r
}

/// A copy of `chars[from..to]` with every `|` dropped.
fn copy_range_strip_bars(chars: &Vec<char>, from: usize, to: usize) -> (r: Vec<char>)
    requires
        from <= to <= chars@.len(),
    ensures
        r@ == strip_bars(chars@.subrange(from as int, to as int)),
{
    let mut r: Vec<char> = Vec::new();
    proof {
        assert(chars@.subrange(from as int, from as int) =~= Seq::<char>::empty());
    }
    let mut j = from;
    while j < to
        invariant
            from <= j <= to <= chars@.len(),
            r@ == strip_bars(chars@.subrange(from as int, j as int)),
        decreases to - j,
    {
        let c = chars[j];
        proof {
            lemma_strip_bars_push(chars@.subrange(from as int, j as int), c);
            assert(chars@.subrange(from as int, j as int + 1) =~= chars@.subrange(
                from as int,
                j as int,
            ).push(c));
        }
        if c != '|' {
            r.push(c);
        }
        j = j + 1;
    }
    r
}

/// The first position at or after `pos` holding `target`, as
/// `first_index_from` answers it.
fn find_char_from(chars: &Vec<char>, pos: usize, target: char) -> (r: Option<usize>)
    requires
        pos <= chars@.len(),
    ensures
        (match r {
            Some(j) => pos <= j < chars@.len() && first_index_from(
                chars@,
                pos as int,
                char_pred(target),
            ) == Some(j as int),
            None => first_index_from(chars@, pos as int, char_pred(target)) == None::<int>,
        }),
{
    let n = chars.len();
    let mut j = pos;
    while j < n
        invariant
            pos <= j <= n == chars@.len(),
            forall|m: int| pos <= m < j ==> chars@[m] != target,
        decreases n - j,
    {
        if chars[j] == target {
            proof {
                assert forall|m: int| pos <= m < j implies !(char_pred(target)(chars@[m])) by {}
                lemma_first_index_from_is(chars@, pos as int, char_pred(target), j as int);
            }
            return Some(j);
        }
        j = j + 1;
    }
    proof {
        assert forall|m: int| pos <= m < chars@.len() implies !(char_pred(target)(chars@[m])) by {}
        lemma_first_index_from_none(chars@, pos as int, char_pred(target));
    }
    None
}

/// The first `|` strictly inside `chars[from..to]`, as `first_index_from`
/// answers it on that subrange (the answer is relative to `from`).
fn find_bar_in(chars: &Vec<char>, from: usize, to: usize) -> (r: Option<usize>)
    requires
        from <= to <= chars@.len(),
    ensures
        (match r {
            Some(j) => from <= j < to && first_index_from(
                chars@.subrange(from as int, to as int),
                0,
                char_pred('|'),
            ) == Some(j - from as int),
            None => first_index_from(chars@.subrange(from as int, to as int), 0, char_pred('|'))
                == None::<int>,
        }),
{
    let ghost body = chars@.subrange(from as int, to as int);
    let mut j = from;
    while j < to
        invariant
            from <= j <= to <= chars@.len(),
            body == chars@.subrange(from as int, to as int),
            forall|m: int| from <= m < j ==> chars@[m] != '|',
        decreases to - j,
    {
        if chars[j] == '|' {
            proof {
                assert(body[j - from as int] == chars@[j as int]);
                assert forall|m: int| 0 <= m < j - from as int implies !(char_pred('|')(
                    body[m],
                )) by {
                    assert(body[m] == chars@[from as int + m]);
                }
                lemma_first_index_from_is(body, 0, char_pred('|'), j - from as int);
            }
            return Some(j);
        }
        j = j + 1;
    }
    proof {
        assert forall|m: int| 0 <= m < body.len() implies !(char_pred('|')(body[m])) by {
            assert(body[m] == chars@[from as int + m]);
        }
        lemma_first_index_from_none(body, 0, char_pred('|'));
    }
    None
}

/// The character at position `i`.
fn char_at(chars: &Vec<char>, i: usize) -> (c: char)
    requires
        i < chars@.len(),
    ensures
        c == chars@[i as int],
{
    chars[i]
}

/// Compiles the pattern text `chars` from position `i` on, with the
/// instructions `tokens` already emitted.  One token is handled per step; a
/// quantifier pops and transforms the last emitted instruction, a group is
/// compiled by two recursive sub-compilations, and anchors become ordinary
/// instructions (an end anchor ends the scan).
#[verifier::rlimit(60)]
fn parse_from(chars: &Vec<char>, i: usize, tokens: Vec<RegexPattern>) -> (r: Result<
    Vec<RegexPattern>,
    ParseError,
>)
    requires
        i <= chars@.len(),
    ensures
        parse_result_view(r) == spec_parse_from(chars@, i as int, pats_view(tokens@)),
    decreases chars@.len() - i,
{
    let n = chars.len();
    let ghost acc0 = pats_view(tokens@);
    proof {
        lemma_pats_view(tokens@);
    }
    if i == n {
        return Ok(tokens);
    }
    let mut toks = tokens;
    let c = char_at(chars, i);
    if c == '\\' {
        if i + 1 < n {
            let d = char_at(chars, i + 1);
            if d == '\\' {
                let ghost t0 = toks@;
                toks.push(RegexPattern::Char('\\'));
                proof {
                    lemma_pats_view_push(t0, toks@.last());
                }
                parse_from(chars, i + 2, toks)
            } else if d == 'd' {
                let ghost t0 = toks@;
                toks.push(RegexPattern::Digit);
                proof {
                    lemma_pats_view_push(t0, toks@.last());
                }
                parse_from(chars, i + 2, toks)
            } else if d == 'w' {
                let ghost t0 = toks@;
                toks.push(RegexPattern::Word);
                proof {
                    lemma_pats_view_push(t0, toks@.last());
                }
                parse_from(chars, i + 2, toks)
            } else {
                Err(ParseError::UnsupportedEscape)
            }
        } else {
            Err(ParseError::UnsupportedEscape)
        }
    } else if c == '+' {
        if toks.len() == 0 {
            let ghost t0 = toks@;
            toks.push(RegexPattern::Char('+'));
            proof {
                lemma_pats_view_push(t0, toks@.last());
            }
            parse_from(chars, i + 1, toks)
        } else {
            let ghost t0 = toks@;
            let last = toks.pop();
            proof {
                assert(acc0.last() == pat_view(t0.last()));
                lemma_pats_view_subrange(t0, 0, t0.len() - 1);
            }
            match last {
                Some(RegexPattern::Char(ch)) => {
                    let ghost t1 = toks@;
                    toks.push(RegexPattern::Plus(ch));
                    proof {
                        lemma_pats_view_push(t1, toks@.last());
                    }
                    parse_from(chars, i + 1, toks)
                }
                _ => Err(ParseError::UnsupportedQuantifier),
            }
        }
    } else if c == '?' {
        if toks.len() == 0 {
            let ghost t0 = toks@;
            toks.push(RegexPattern::Char('?'));
            proof {
                lemma_pats_view_push(t0, toks@.last());
            }
            parse_from(chars, i + 1, toks)
        } else {
            let ghost t0 = toks@;
            let last = toks.pop();
            proof {
                assert(acc0.last() == pat_view(t0.last()));
                lemma_pats_view_subrange(t0, 0, t0.len() - 1);
            }
            match last {
                Some(RegexPattern::Char(ch)) => {
                    let ghost t1 = toks@;
                    toks.push(RegexPattern::ZeroOrOne(ch));
                    proof {
                        lemma_pats_view_push(t1, toks@.last());
                    }
                    parse_from(chars, i + 1, toks)
                }
                _ => Err(ParseError::UnsupportedQuantifier),
            }
        }
    } else if c == '.' {
        let ghost t0 = toks@;
        toks.push(RegexPattern::Dot);
        proof {
            lemma_pats_view_push(t0, toks@.last());
        }
        parse_from(chars, i + 1, toks)
    } else if c == '^' {
        let ghost t0 = toks@;
        if toks.len() > 0 {
            toks.push(RegexPattern::Char('^'));
            proof {
                lemma_pats_view_push(t0, toks@.last());
            }
            parse_from(chars, i + 1, toks)
        } else {
            toks.push(RegexPattern::Start);
            proof {
                lemma_pats_view_push(t0, toks@.last());
            }
            parse_from(chars, i + 1, toks)
        }
    } else if c == '$' {
        let ghost t0 = toks@;
        toks.push(RegexPattern::End);
        proof {
            lemma_pats_view_push(t0, toks@.last());
        }
        Ok(toks)
    } else if c == '[' {
        let neg = i + 1 < n && chars[i + 1] == '^';
        let body_start = if neg {
            i + 2
        } else {
            i + 1
        };
        if body_start >= n {
            Err(ParseError::UnterminatedCharSet)
        } else {
            match find_char_from(chars, body_start + 1, ']') {
                Some(close) => {
                    let members = copy_range(chars, body_start, close);
                    let ghost t0 = toks@;
                    if neg {
                        toks.push(RegexPattern::NegativeCharSet(members));
                    } else {
                        toks.push(RegexPattern::PositiveCharSet(members));
                    }
                    proof {
                        lemma_pats_view_push(t0, toks@.last());
                    }
                    parse_from(chars, close + 1, toks)
                }
                None => Err(ParseError::UnterminatedCharSet),
            }
        }
    } else if c == '(' {
        match find_char_from(chars, i + 1, ')') {
            Some(close) => {
                let bar_opt = find_bar_in(chars, i + 1, close);
                let lto = match bar_opt {
                    Some(b) => b,
                    None => close,
                };
                let rfrom = match bar_opt {
                    Some(b) => b + 1,
                    None => close,
                };
                let left_vec = copy_range(chars, i + 1, lto);
                let right_vec = copy_range_strip_bars(chars, rfrom, close);
                proof {
                    lemma_strip_bars_len(chars@.subrange(rfrom as int, close as int));
                    let body = chars@.subrange(i as int + 1, close as int);
                    match bar_opt {
                        Some(b) => {
                            assert(left_vec@ =~= body.subrange(0, b - (i + 1) as int));
                            assert(chars@.subrange(rfrom as int, close as int) =~= body.subrange(
                                b - (i + 1) as int + 1,
                                body.len() as int,
                            ));
                        }
                        None => {
                            assert(left_vec@ =~= body);
                            assert(chars@.subrange(close as int, close as int)
                                =~= Seq::<char>::empty());
                        }
                    }
                }
                proof {
                    let body = chars@.subrange(i as int + 1, close as int);
                    let bar = first_index_from(body, 0, char_pred('|'));
                    let left = match bar {
                        Some(b) => body.subrange(0, b),
                        None => body,
                    };
                    let right = match bar {
                        Some(b) => strip_bars(body.subrange(b + 1, body.len() as int)),
                        None => Seq::<char>::empty(),
                    };
                    assert(left_vec@ == left);
                    assert(right_vec@ == right);
                    assert(spec_parse_from(chars@, i as int, acc0) == (match spec_parse(left) {
                        Ok(lm) => match spec_parse(right) {
                            Ok(rm) => spec_parse_from(
                                chars@,
                                close as int + 1,
                                acc0.push(PatternModel::Alternative(lm, rm)),
                            ),
                            Err(e) => Err(e),
                        },
                        Err(e) => Err(e),
                    }));
                }
                match parse_from(&left_vec, 0, Vec::new()) {
                    Ok(lv) => match parse_from(&right_vec, 0, Vec::new()) {
                        Ok(rv) => {
                            let ghost t0 = toks@;
                            toks.push(RegexPattern::Alternative(lv, rv));
                            proof {
                                lemma_pats_view_push(t0, toks@.last());
                            }
                            parse_from(chars, close + 1, toks)
                        }
                        Err(e) => Err(e),
                    },
                    Err(e) => Err(e),
                }
            }
            None => Err(ParseError::UnterminatedGroup),
        }
    } else {
        let ghost t0 = toks@;
        toks.push(RegexPattern::Char(c));
        proof {
            lemma_pats_view_push(t0, toks@.last());
        }
        parse_from(chars, i + 1, toks)
    }
}

/// Compiles a pattern text into its instruction sequence, or reports the error
/// that aborts compilation.  The result is exactly what [`spec_parse`] gives on
/// the pattern's characters: compilation succeeds if and only if the model
/// does, with the same instructions (up to their abstract form) or the same
/// error.  Compilation is a pure function of the text, so compiling the same
/// pattern twice yields structurally identical sequences.
pub fn parse_pattern(pattern: &str) -> (r: Result<Vec<RegexPattern>, ParseError>)
    ensures
        parse_result_view(r) == spec_parse(pattern@),
{
    let chars = chars_of(pattern);
    parse_from(&chars, 0, Vec::new())
}


/// Walks the line from `pos` against the instructions of `pats` from `k` on,
/// and reports how many characters they consume, or that the match fails.
/// `at_start` says whether `pos` is still the very start of the whole line,
/// which is what the start anchor checks.  Alternation matches each branch, as
/// a whole instruction sequence of its own, against the same remaining suffix,
/// then advances by exactly what the successful branch consumed.
/// One consuming step: when the head instruction takes the first `step`
/// characters and hands the rest of the suffix to the remaining instructions,
/// the total consumption is `step` more than theirs, and a failure of the rest
/// is a failure of the whole.
proof fn lemma_consume_step(
    lview: Seq<char>,
    at_start: bool,
    pview: Seq<PatternModel>,
    step: int,
    sub: Option<int>,
)
    requires
        pview.len() > 0,
        spec_consumed(lview, at_start, pview) == spec_consumed_after(
            lview,
            at_start,
            step,
            pview.subrange(1, pview.len() as int),
        ),
        spec_consumed(
            lview.subrange(step, lview.len() as int),
            at_start && step == 0,
            pview.subrange(1, pview.len() as int),
        ) == sub,
    ensures
        (match sub {
            Some(m) => spec_consumed(lview, at_start, pview) == Some(step + m),
            None => spec_consumed(lview, at_start, pview) is None,
        }),
{
}

/// Walks the line from `pos` against the instructions of `pats` from `k` on,
/// and reports how many characters they consume, or that the match fails.
/// `at_start` says whether `pos` is still the very start of the whole line,
/// which is what the start anchor checks.  Alternation matches each branch, as
/// a whole instruction sequence of its own, against the same remaining suffix,
/// then advances by exactly what the successful branch consumed.
#[verifier::rlimit(100)]
fn match_chars(line: &Vec<char>, pos: usize, at_start: bool, pats: &[RegexPattern], k: usize) -> (r:
    Option<usize>)
    requires
        pos <= line@.len(),
        k <= pats@.len(),
    ensures
        (match r {
            Some(n) => pos + n <= line@.len() && spec_consumed(
                line@.skip(pos as int),
                at_start,
                pats_view(pats@).skip(k as int),
            ) == Some(n as int),
            None => spec_consumed(
                line@.skip(pos as int),
                at_start,
                pats_view(pats@).skip(k as int),
            ) is None,
        }),
    decreases pats@, pats@.len() - k,
{
    proof {
        lemma_pats_view(pats@);
    }
    let n = line.len();
    let ghost lview = line@.skip(pos as int);
    let ghost pview = pats_view(pats@).skip(k as int);
    if k == pats.len() {
        proof {
            assert(pview =~= Seq::<PatternModel>::empty());
        }
        return Some(0);
    }
    proof {
        assert(pview[0] == pat_view(pats@[k as int]));
        assert(pview.subrange(1, pview.len() as int) =~= pats_view(pats@).skip(k as int + 1));
        if pos < line@.len() {
            assert(lview[0] == line@[pos as int]);
        }
    }
    let ghost rest = pview.subrange(1, pview.len() as int);
    let inst = &pats[k];
    match inst {
        RegexPattern::Char(c) => {
            if pos < n && line[pos] == *c {
                proof {
                    assert(lview.subrange(1, lview.len() as int) =~= line@.skip(pos as int + 1));
                }
                let sub = match_chars(line, pos + 1, false, pats, k + 1);
                proof {
                    assert(spec_consumed(lview, at_start, pview) == spec_consumed_after(
                        lview,
                        at_start,
                        1,
                        rest,
                    ));
                    lemma_consume_step(
                        lview,
                        at_start,
                        pview,
                        1,
                        match sub {
                            Some(m) => Some(m as int),
                            None => None::<int>,
                        },
                    );
                }
                match sub {
                    Some(m) => Some(m + 1),
                    None => None,
                }
            } else {
                proof {
                    if k + 1 < pats@.len() {
                        assert(pview[1] == pat_view(pats@[k as int + 1]));
                    } else {
                        assert(pview.len() < 2);
                    }
                }
                let lookahead = if k + 1 < pats.len() {
                    match &pats[k + 1] {
                        RegexPattern::ZeroOrOne(d) => *d == *c,
                        _ => false,
                    }
                } else {
                    false
                };
                proof {
                    assert(lookahead == (pview.len() >= 2 && pview[1] == PatternModel::ZeroOrOne(
                        *c,
                    )));
                }
                if lookahead {
                    if n - pos >= 2 {
                        proof {
                            assert(lview.subrange(2, lview.len() as int) =~= line@.skip(
                                pos as int + 2,
                            ));
                            assert(pview.subrange(2, pview.len() as int) =~= pats_view(
                                pats@,
                            ).skip(k as int + 2));
                        }
                        let sub = match_chars(line, pos + 2, false, pats, k + 2);
                        proof {
                            assert(spec_consumed(lview, at_start, pview) == spec_consumed_after(
                                lview,
                                at_start,
                                2,
                                pview.subrange(2, pview.len() as int),
                            ));
                            match sub {
                                Some(m) => {
                                    assert(spec_consumed(
                                        lview.subrange(2, lview.len() as int),
                                        false,
                                        pview.subrange(2, pview.len() as int),
                                    ) == Some(m as int));
                                    assert(spec_consumed_after(
                                        lview,
                                        at_start,
                                        2,
                                        pview.subrange(2, pview.len() as int),
                                    ) == Some(2 + m as int));
                                }
                                None => {
                                    assert(spec_consumed_after(
                                        lview,
                                        at_start,
                                        2,
                                        pview.subrange(2, pview.len() as int),
                                    ) is None);
                                }
                            }
                        }
                        match sub {
                            Some(m) => Some(m + 2),
                            None => None,
                        }
                    } else {
                        proof {
                            assert(lview.len() < 2);
                            assert(spec_consumed(lview, at_start, pview) is None);
                        }
                        None
                    }
                } else {
                    proof {
                        assert(spec_consumed(lview, at_start, pview) is None);
                    }
                    None
                }
            }
        }
        RegexPattern::Digit => {
            match scan_digit(line, pos) {
                Some(j) => {
                    proof {
                        assert(is_ascii_digit_char(lview[j - pos as int]));
                        assert forall|m: int| 0 <= m < j - pos as int implies !(digit_pred()(
                            lview[m],
                        )) by {
                            assert(lview[m] == line@[pos as int + m]);
                        }
                        lemma_first_index_from_is(lview, 0, digit_pred(), j - pos as int);
                        assert(lview.subrange(j - pos as int + 1, lview.len() as int) =~= line@.skip(
                            j as int + 1,
                        ));
                    }
                    let sub = match_chars(line, j + 1, false, pats, k + 1);
                    proof {
                        assert(spec_consumed(lview, at_start, pview) == spec_consumed_after(
                            lview,
                            at_start,
                            j - pos as int + 1,
                            rest,
                        ));
                        lemma_consume_step(
                            lview,
                            at_start,
                            pview,
                            j - pos as int + 1,
                            match sub {
                                Some(m) => Some(m as int),
                                None => None::<int>,
                            },
                        );
                    }
                    match sub {
                        Some(m) => Some(j + 1 - pos + m),
                        None => None,
                    }
                }
                None => {
                    proof {
                        assert forall|m: int| 0 <= m < lview.len() implies !(digit_pred()(
                            lview[m],
                        )) by {
                            assert(lview[m] == line@[pos as int + m]);
                        }
                        lemma_first_index_from_none(lview, 0, digit_pred());
                        assert(spec_consumed(lview, at_start, pview) is None);
                    }
                    None
                }
            }
        }
        RegexPattern::Word => {
            match scan_word(line, pos) {
                Some(j) => {
                    proof {
                        assert(is_word_char(lview[j - pos as int]));
                        assert forall|m: int| 0 <= m < j - pos as int implies !(word_pred()(
                            lview[m],
                        )) by {
                            assert(lview[m] == line@[pos as int + m]);
                        }
                        lemma_first_index_from_is(lview, 0, word_pred(), j - pos as int);
                        assert(lview.subrange(j - pos as int + 1, lview.len() as int) =~= line@.skip(
                            j as int + 1,
                        ));
                    }
                    let sub = match_chars(line, j + 1, false, pats, k + 1);
                    proof {
                        assert(spec_consumed(lview, at_start, pview) == spec_consumed_after(
                            lview,
                            at_start,
                            j - pos as int + 1,
                            rest,
                        ));
                        lemma_consume_step(
                            lview,
                            at_start,
                            pview,
                            j - pos as int + 1,
                            match sub {
                                Some(m) => Some(m as int),
                                None => None::<int>,
                            },
                        );
                    }
                    match sub {
                        Some(m) => Some(j + 1 - pos + m),
                        None => None,
                    }
                }
                None => {
                    proof {
                        assert forall|m: int| 0 <= m < lview.len() implies !(word_pred()(
                            lview[m],
                        )) by {
                            assert(lview[m] == line@[pos as int + m]);
                        }
                        lemma_first_index_from_none(lview, 0, word_pred());
                        assert(spec_consumed(lview, at_start, pview) is None);
                    }
                    None
                }
            }
        }
        RegexPattern::PositiveCharSet(set) => {
            if pos < n && set_contains(set, line[pos]) {
                proof {
                    assert(lview.subrange(1, lview.len() as int) =~= line@.skip(pos as int + 1));
                }
                let sub = match_chars(line, pos + 1, false, pats, k + 1);
                proof {
                    assert(spec_consumed(lview, at_start, pview) == spec_consumed_after(
                        lview,
                        at_start,
                        1,
                        rest,
                    ));
                    lemma_consume_step(
                        lview,
                        at_start,
                        pview,
                        1,
                        match sub {
                            Some(m) => Some(m as int),
                            None => None::<int>,
                        },
                    );
                }
                match sub {
                    Some(m) => Some(m + 1),
                    None => None,
                }
            } else {
                proof {
                    assert(spec_consumed(lview, at_start, pview) is None);
                }
                None
            }
        }
        RegexPattern::NegativeCharSet(set) => {
            if pos < n && !set_contains(set, line[pos]) {
                proof {
                    assert(lview.subrange(1, lview.len() as int) =~= line@.skip(pos as int + 1));
                }
                let sub = match_chars(line, pos + 1, false, pats, k + 1);
                proof {
                    assert(spec_consumed(lview, at_start, pview) == spec_consumed_after(
                        lview,
                        at_start,
                        1,
                        rest,
                    ));
                    lemma_consume_step(
                        lview,
                        at_start,
                        pview,
                        1,
                        match sub {
                            Some(m) => Some(m as int),
                            None => None::<int>,
                        },
                    );
                }
                match sub {
                    Some(m) => Some(m + 1),
                    None => None,
                }
            } else {
                proof {
                    assert(spec_consumed(lview, at_start, pview) is None);
                }
                None
            }
        }
        RegexPattern::Start => {
            if at_start {
                let sub = match_chars(line, pos, at_start, pats, k + 1);
                proof {
                    assert(spec_consumed(lview, at_start, pview) == spec_consumed(
                        lview,
                        at_start,
                        rest,
                    ));
                }
                sub
            } else {
                proof {
                    assert(spec_consumed(lview, at_start, pview) is None);
                }
                None
            }
        }
        RegexPattern::End => {
            if pos == n {
                let sub = match_chars(line, pos, at_start, pats, k + 1);
                proof {
                    assert(lview.len() == 0);
                    assert(spec_consumed(lview, at_start, pview) == spec_consumed(
                        lview,
                        at_start,
                        rest,
                    ));
                }
                sub
            } else {
                proof {
                    assert(lview.len() > 0);
                    assert(spec_consumed(lview, at_start, pview) is None);
                }
                None
            }
        }
        RegexPattern::Plus(c) => {
            if pos < n && line[pos] == *c {
                let mut j = pos + 1;
                while j < n && line[j] == *c
                    invariant
                        n == line@.len(),
                        pos < j <= n,
                        forall|m: int| pos <= m < j ==> line@[m] == *c,
                    decreases line@.len() - j,
                {
                    j = j + 1;
                }
                proof {
                    lemma_leading_run(lview, *c);
                    assert forall|m: int| 0 <= m < j - pos as int implies lview[m] == *c by {
                        assert(lview[m] == line@[pos as int + m]);
                    }
                    if j < line@.len() {
                        assert(lview[j - pos as int] == line@[j as int]);
                    }
                    assert(leading_run(lview, *c) == j - pos as int);
                    assert(lview.subrange(j - pos as int, lview.len() as int) =~= line@.skip(
                        j as int,
                    ));
                }
                let sub = match_chars(line, j, false, pats, k + 1);
                proof {
                    assert(spec_consumed(lview, at_start, pview) == spec_consumed_after(
                        lview,
                        at_start,
                        j - pos as int,
                        rest,
                    ));
                    lemma_consume_step(
                        lview,
                        at_start,
                        pview,
                        j - pos as int,
                        match sub {
                            Some(m) => Some(m as int),
                            None => None::<int>,
                        },
                    );
                }
                match sub {
                    Some(m) => Some(j - pos + m),
                    None => None,
                }
            } else {
                proof {
                    assert(spec_consumed(lview, at_start, pview) is None);
                }
                None
            }
        }
        RegexPattern::ZeroOrOne(c) => {
            if pos < n && line[pos] == *c {
                proof {
                    assert(lview.subrange(1, lview.len() as int) =~= line@.skip(pos as int + 1));
                }
                let sub = match_chars(line, pos + 1, false, pats, k + 1);
                proof {
                    assert(spec_consumed(lview, at_start, pview) == spec_consumed_after(
                        lview,
                        at_start,
                        1,
                        rest,
                    ));
                    lemma_consume_step(
                        lview,
                        at_start,
                        pview,
                        1,
                        match sub {
                            Some(m) => Some(m as int),
                            None => None::<int>,
                        },
                    );
                }
                match sub {
                    Some(m) => Some(m + 1),
                    None => None,
                }
            } else {
                let sub = match_chars(line, pos, at_start, pats, k + 1);
                proof {
                    assert(spec_consumed(lview, at_start, pview) == spec_consumed(
                        lview,
                        at_start,
                        rest,
                    ));
                }
                sub
            }
        }
        RegexPattern::Dot => {
            if pos < n {
                proof {
                    assert(lview.subrange(1, lview.len() as int) =~= line@.skip(pos as int + 1));
                }
                let sub = match_chars(line, pos + 1, false, pats, k + 1);
                proof {
                    assert(spec_consumed(lview, at_start, pview) == spec_consumed_after(
                        lview,
                        at_start,
                        1,
                        rest,
                    ));
                    lemma_consume_step(
                        lview,
                        at_start,
                        pview,
                        1,
                        match sub {
                            Some(m) => Some(m as int),
                            None => None::<int>,
                        },
                    );
                }
                match sub {
                    Some(m) => Some(m + 1),
                    None => None,
                }
            } else {
                proof {
                    assert(spec_consumed(lview, at_start, pview) is None);
                }
                None
            }
        }
        RegexPattern::Alternative(a, b) => {
            proof {
                assert(decreases_to!(pats@ => pats@[k as int]));
                assert(decreases_to!(pats@[k as int] => a));
                assert(decreases_to!(a => a@));
                assert(decreases_to!(pats@[k as int] => b));
                assert(decreases_to!(b => b@));
                assert(pats_view(a@).skip(0) =~= pats_view(a@));
                assert(pats_view(b@).skip(0) =~= pats_view(b@));
            }
            let left = match_chars(line, pos, at_start, a.as_slice(), 0);
            let taken = match left {
                Some(t) => Some(t),
                None => match_chars(line, pos, at_start, b.as_slice(), 0),
            };
            match taken {
                Some(t) => {
                    proof {
                        assert(lview.subrange(t as int, lview.len() as int) =~= line@.skip(
                            pos as int + t as int,
                        ));
                    }
                    let sub = match_chars(line, pos + t, at_start && t == 0, pats, k + 1);
                    proof {
                        assert(spec_consumed(lview, at_start, pview) == spec_consumed_after(
                            lview,
                            at_start,
                            t as int,
                            rest,
                        ));
                        lemma_consume_step(
                            lview,
                            at_start,
                            pview,
                            t as int,
                            match sub {
                                Some(m) => Some(m as int),
                                None => None::<int>,
                            },
                        );
                    }
                    match sub {
                        Some(m) => Some(t + m),
                        None => None,
                    }
                }
                None => {
                    proof {
                        assert(spec_consumed(lview, at_start, pview) is None);
                    }
                    None
                }
            }
        }
    }
}

/// Does the line satisfy the compiled instruction sequence, matched from the
/// start of the line?  Equivalent to [`spec_matches`] over the views of both
/// arguments.
pub fn match_with_pattern(input_line: &str, pattern: &[RegexPattern]) -> (b: bool)
    ensures
        b == spec_matches(input_line@, true, pats_view(pattern@)),
{
    let line = chars_of(input_line);
    let r = match_chars(&line, 0, true, pattern, 0);
    proof {
        assert(line@.skip(0) =~= input_line@);
        assert(pats_view(pattern@).skip(0) =~= pats_view(pattern@));
    }
    match r {
        Some(_) => true,
        None => false,
    }
}

/// The whole match operation: the pattern is compiled, with anchors as
/// ordinary leading or trailing instructions, and the line is walked against
/// the instruction sequence.  A sequence headed by the start anchor, like any
/// unanchored one, is matched from the beginning of the line; one that merely
/// ends with the end anchor is tried at every start offset, since the anchor
/// constrains only where the match must end.  Returns `Ok(true)` or
/// `Ok(false)` for a compiled match, and the compilation error for a pattern
/// that fails to compile.
pub fn match_pattern(input_line: &str, pattern: &str) -> (r: Result<bool, ParseError>)
    ensures
        r == spec_match_pattern(input_line@, pattern@),
{
    let pat_chars = chars_of(pattern);
    match parse_from(&pat_chars, 0, Vec::new()) {
        Err(e) => Err(e),
        Ok(instructions) => {
            let line = chars_of(input_line);
            let ghost pview = pats_view(instructions@);
            proof {
                lemma_pats_view(instructions@);
            }
            let count = instructions.len();
            let starts_anchored = count > 0 && (match &instructions[0] {
                RegexPattern::Start => true,
                _ => false,
            });
            let ends_anchored = count > 0 && (match &instructions[count - 1] {
                RegexPattern::End => true,
                _ => false,
            });
            proof {
                if count > 0 {
                    assert(pview[0] == pat_view(instructions@[0]));
                    assert(pview.last() == pat_view(instructions@[count - 1]));
                }
                assert(starts_anchored == (pview.len() > 0 && pview[0] is Start));
                assert(ends_anchored == (pview.len() > 0 && pview.last() is End));
            }
            if !starts_anchored && ends_anchored {
                let nl = line.len();
                let mut off: usize = 0;
                while off < nl
                    invariant
                        off <= nl,
                        nl == line@.len(),
                        line@ == input_line@,
                        pview == pats_view(instructions@),
                        instructions@.len() == pview.len(),
                        pview.len() > 0,
                        !(pview[0] is Start),
                        pview.last() is End,
                        spec_parse(pattern@) == Ok::<_, ParseError>(pview),
                        forall|o: int|
                            0 <= o < off ==> !spec_matches(
                                line@.subrange(o, line@.len() as int),
                                o == 0,
                                pview,
                            ),
                    decreases nl - off,
                {
                    let hit = match_chars(&line, off, off == 0, instructions.as_slice(), 0);
                    proof {
                        assert(line@.skip(off as int) =~= line@.subrange(
                            off as int,
                            line@.len() as int,
                        ));
                        assert(pats_view(instructions@).skip(0) =~= pview);
                    }
                    match hit {
                        Some(_) => {
                            proof {
                                assert(spec_matches(
                                    input_line@.subrange(off as int, input_line@.len() as int),
                                    off == 0,
                                    pview,
                                ));
                                assert(spec_pattern_matches(input_line@, pview));
                            }
                            return Ok(true);
                        }
                        None => {}
                    }
                    off = off + 1;
                }
                // Only the alignment at the very end of the line is left.
                let hit = match_chars(&line, nl, nl == 0, instructions.as_slice(), 0);
                proof {
                    assert(line@.skip(nl as int) =~= line@.subrange(nl as int, line@.len() as int));
                    assert(pats_view(instructions@).skip(0) =~= pview);
                }
                match hit {
                    Some(_) => {
                        proof {
                            assert(spec_matches(
                                input_line@.subrange(nl as int, input_line@.len() as int),
                                nl == 0,
                                pview,
                            ));
                            assert(spec_pattern_matches(input_line@, pview));
                        }
                        Ok(true)
                    }
                    None => {
                        proof {
                            assert forall|o: int|
                                0 <= o <= input_line@.len() implies !spec_matches(
                                input_line@.subrange(o, input_line@.len() as int),
                                o == 0,
                                pview,
                            ) by {
                                assert(!spec_matches(
                                    line@.subrange(o, line@.len() as int),
                                    o == 0,
                                    pview,
                                ));
                            }
                            assert(!spec_pattern_matches(input_line@, pview));
                        }
                        Ok(false)
                    }
                }
            } else {
                let res = match_chars(&line, 0, true, instructions.as_slice(), 0);
                proof {
                    assert(line@.skip(0) =~= input_line@);
                    assert(pats_view(instructions@).skip(0) =~= pview);
                }
                match res {
                    Some(_) => Ok(true),
                    None => Ok(false),
                }
            }
        }
    }
}

/// A copy of one instruction, equal to the original in its abstract form.
fn clone_pat(p: &RegexPattern) -> (r: RegexPattern)
    ensures
        pat_view(r) == pat_view(*p),
    decreases *p,
{
    match p {
        RegexPattern::Char(c) => RegexPattern::Char(*c),
        RegexPattern::Digit => RegexPattern::Digit,
        RegexPattern::Word => RegexPattern::Word,
        RegexPattern::PositiveCharSet(v) => {
            let members = copy_range(v, 0, v.len());
            proof {
                assert(members@ =~= v@);
            }
            RegexPattern::PositiveCharSet(members)
        }
        RegexPattern::NegativeCharSet(v) => {
            let members = copy_range(v, 0, v.len());
            proof {
                assert(members@ =~= v@);
            }
            RegexPattern::NegativeCharSet(members)
        }
        RegexPattern::Start => RegexPattern::Start,
        RegexPattern::End => RegexPattern::End,
        RegexPattern::Plus(c) => RegexPattern::Plus(*c),
        RegexPattern::ZeroOrOne(c) => RegexPattern::ZeroOrOne(*c),
        RegexPattern::Dot => RegexPattern::Dot,
        RegexPattern::Alternative(a, b) => {
            proof {
                assert(decreases_to!(*p => a));
                assert(decreases_to!(a => a@));
                assert(decreases_to!(*p => b));
                assert(decreases_to!(b => b@));
            }
            RegexPattern::Alternative(clone_pats(a), clone_pats(b))
        }
    }
}

/// A copy of an instruction sequence, element by element.
fn clone_pats(ps: &Vec<RegexPattern>) -> (r: Vec<RegexPattern>)
    ensures
        pats_view(r@) == pats_view(ps@),
    decreases ps@,
{
    proof {
        lemma_pats_view(ps@);
    }
    let mut out: Vec<RegexPattern> = Vec::new();
    let mut j: usize = 0;
    while j < ps.len()
        invariant
            j <= ps@.len(),
            out@.len() == j,
            forall|t: int| 0 <= t < j ==> pat_view(out@[t]) == pat_view(ps@[t]),
        decreases ps@.len() - j,
    {
        proof {
            assert(decreases_to!(ps@ => ps@[j as int]));
        }
        let one = clone_pat(&ps[j]);
        out.push(one);
        j = j + 1;
    }
    proof {
        lemma_pats_view(out@);
        lemma_pats_view(ps@);
        assert(pats_view(out@) =~= pats_view(ps@));
    }
    out
}

impl Clone for RegexPattern {
    /// A clone is equal to the original in its abstract form, so it compiles
    /// nothing away and matches exactly the same lines.
    fn clone(&self) -> (r: Self)
        ensures
            pat_view(r) == pat_view(*self),
    {
        clone_pat(self)
    }
}

} // verus!
