//! General laws of the pattern language, stated over the model of
//! [`crate::model`] and proved once and for all.  Each law's doc comment says
//! what it states in words; together with the contracts of
//! [`crate::matcher::parse_pattern`] and [`crate::matcher::match_pattern`]
//! they carry over to the executable code.

use vstd::prelude::*;

use crate::model::PatternModel;
use crate::model::ParseError;
use crate::model::digit_pred;
use crate::model::first_index_from;
use crate::model::is_ascii_digit_char;
use crate::model::is_word_char;
use crate::model::leading_run;
use crate::model::lemma_first_index_from;
use crate::model::lemma_leading_run;
use crate::model::spec_consumed;
use crate::model::spec_consumed_after;
use crate::model::spec_match_pattern;
use crate::model::spec_matches;
use crate::model::spec_parse;
use crate::model::spec_parse_from;
use crate::model::spec_pattern_matches;
use crate::model::word_pred;

verus! {

/// A character with no special meaning to the compiler: it always becomes a
/// literal instruction (`]`, `)` and `|` are plain outside sets and groups).
pub open spec fn is_plain_char(c: char) -> bool {
    c != '\\' && c != '+' && c != '?' && c != '.' && c != '^' && c != '$' && c != '[' && c != '('
}

/// The literal instruction for one character.  (Going through a function
/// application also keeps the constructed value's typing facts available to
/// the solver, which the raw constructor on a sequence element does not.)
pub open spec fn lit_of(c: char) -> PatternModel {
    PatternModel::Char(c)
}

/// One literal instruction per character of the text.
pub open spec fn literal_instructions(text: Seq<char>) -> Seq<PatternModel>
    decreases text.len(),
{
    if text.len() == 0 {
        Seq::empty()
    } else {
        seq![PatternModel::Char(text[0])] + literal_instructions(
            text.subrange(1, text.len() as int),
        )
    }
}

/// The instruction at each position of `literal_instructions` is the literal
/// of the character there.
proof fn lemma_literal_instructions(text: Seq<char>)
    ensures
        literal_instructions(text).len() == text.len(),
        forall|k: int|
            0 <= k < text.len() ==> literal_instructions(text)[k] == PatternModel::Char(text[k]),
    decreases text.len(),
{
    if text.len() > 0 {
        let tail = text.subrange(1, text.len() as int);
        lemma_literal_instructions(tail);
        assert(lit_of(text[0]) == PatternModel::Char(text[0]));
        assert(seq![PatternModel::Char(text[0])].len() == 1);
        assert forall|k: int| 0 <= k < text.len() implies literal_instructions(text)[k]
            == PatternModel::Char(text[k]) by {
            assert(lit_of(text[k]) == PatternModel::Char(text[k]));
            if k > 0 {
                assert(literal_instructions(text)[k] == literal_instructions(tail)[k - 1]);
            }
        }
    }
}

proof fn lemma_parse_literals_from(pat: Seq<char>, i: int, acc: Seq<PatternModel>)
    requires
        0 <= i <= pat.len(),
        forall|j: int| i <= j < pat.len() ==> is_plain_char(pat[j]),
    ensures
        spec_parse_from(pat, i, acc) == Ok::<_, ParseError>(
            acc + literal_instructions(pat.subrange(i, pat.len() as int)),
        ),
    decreases pat.len() - i,
{
    lemma_literal_instructions(pat.subrange(i, pat.len() as int));
    if i == pat.len() {
        assert(acc + literal_instructions(pat.subrange(i, pat.len() as int)) =~= acc);
    } else {
        let c = pat[i];
        assert(lit_of(c) == PatternModel::Char(c));
        lemma_parse_literals_from(pat, i + 1, acc.push(PatternModel::Char(c)));
        lemma_literal_instructions(pat.subrange(i + 1, pat.len() as int));
        let lhs = acc.push(PatternModel::Char(c)) + literal_instructions(
            pat.subrange(i + 1, pat.len() as int),
        );
        let rhs = acc + literal_instructions(pat.subrange(i, pat.len() as int));
        assert forall|m: int| 0 <= m < rhs.len() implies lhs[m] == rhs[m] by {
            if m < acc.len() {
                assert(lhs[m] == acc.push(PatternModel::Char(c))[m]);
                assert(rhs[m] == acc[m]);
            } else if m == acc.len() {
                assert(lhs[m] == acc.push(PatternModel::Char(c))[m]);
                assert(rhs[m] == literal_instructions(pat.subrange(i, pat.len() as int))[0]);
            } else {
                vstd::seq::axiom_seq_add_index2(
                    acc.push(PatternModel::Char(c)),
                    literal_instructions(pat.subrange(i + 1, pat.len() as int)),
                    m,
                );
                vstd::seq::axiom_seq_add_index2(
                    acc,
                    literal_instructions(pat.subrange(i, pat.len() as int)),
                    m,
                );
                assert(lhs[m] == literal_instructions(pat.subrange(i + 1, pat.len() as int))[m
                    - acc.len() - 1]);
                assert(rhs[m] == literal_instructions(pat.subrange(i, pat.len() as int))[m
                    - acc.len()]);
            }
        }
        assert(lhs =~= rhs);
    }
}

/// A pattern text made of plain characters alone compiles to the sequence of
/// the corresponding literal instructions, and to nothing else.
pub proof fn lemma_literal_pattern_parse(pat: Seq<char>)
    requires
        forall|j: int| 0 <= j < pat.len() ==> is_plain_char(pat[j]),
    ensures
        spec_parse(pat) == Ok::<_, ParseError>(literal_instructions(pat)),
{
    lemma_parse_literals_from(pat, 0, Seq::empty());
    assert(pat.subrange(0, pat.len() as int) =~= pat);
    assert(Seq::empty() + literal_instructions(pat) =~= literal_instructions(pat));
}

/// Pushing one instruction grows a sequence by one and makes that instruction
/// its last element.  (Stated with the instruction as a parameter so that its
/// typing facts are available whatever expression it was built from.)
pub proof fn lemma_push_instruction(s: Seq<PatternModel>, x: PatternModel)
    ensures
        s.push(x).len() == s.len() + 1,
        s.push(x).last() == x,
{
}

/// A sequence of literal instructions consumes exactly its own length when the
/// line begins with the corresponding characters, position by position, and
/// fails otherwise; it never reads the cursor's position in the line.
pub proof fn lemma_literal_consumed(line: Seq<char>, at_start: bool, pats: Seq<PatternModel>)
    requires
        forall|k: int| 0 <= k < pats.len() ==> pats[k] is Char,
    ensures
        spec_consumed(line, at_start, pats) == (if pats.len() <= line.len() && (forall|k: int|
            0 <= k < pats.len() ==> line[k] == pats[k]->Char_0) {
            Some(pats.len() as int)
        } else {
            None::<int>
        }),
    decreases pats.len(),
{
    reveal_with_fuel(spec_consumed, 2);
    if pats.len() > 0 {
        let c = pats[0]->Char_0;
        let rest = pats.subrange(1, pats.len() as int);
        if line.len() > 0 && line[0] == c {
            let tail = line.subrange(1, line.len() as int);
            lemma_literal_consumed(tail, false, rest);
            if spec_consumed(line, at_start, pats) is Some {
                assert forall|k: int| 0 <= k < pats.len() implies line[k] == pats[k]->Char_0 by {
                    if k > 0 {
                        assert(tail[k - 1] == rest[k - 1]->Char_0);
                    }
                }
            }
            if pats.len() <= line.len() && (forall|k: int|
                0 <= k < pats.len() ==> line[k] == pats[k]->Char_0) {
                assert forall|k: int| 0 <= k < rest.len() implies tail[k] == rest[k]->Char_0 by {
                    assert(line[k + 1] == pats[k + 1]->Char_0);
                }
            }
        }
    }
}

/// A sequence of literal instructions matches a line exactly when the line
/// begins with the corresponding characters.
pub proof fn lemma_literal_match(line: Seq<char>, at_start: bool, pats: Seq<PatternModel>)
    requires
        forall|k: int| 0 <= k < pats.len() ==> pats[k] is Char,
    ensures
        spec_matches(line, at_start, pats) <==> (pats.len() <= line.len() && (forall|k: int|
            0 <= k < pats.len() ==> line[k] == pats[k]->Char_0)),
{
    lemma_literal_consumed(line, at_start, pats);
}

/// A pattern consisting solely of plain literal characters matches a line if
/// and only if the line's prefix equals that character sequence exactly.
pub proof fn lemma_literal_pattern_matches(line: Seq<char>, pat: Seq<char>)
    requires
        forall|j: int| 0 <= j < pat.len() ==> is_plain_char(pat[j]),
    ensures
        spec_match_pattern(line, pat) == Ok::<_, ParseError>(pat.is_prefix_of(line)),
{
    lemma_literal_pattern_parse(pat);
    lemma_literal_instructions(pat);
    let pats = literal_instructions(pat);
    lemma_literal_match(line, true, pats);
    if pat.len() > 0 {
        assert(!(pats[0] is Start));
        assert(!(pats.last() is End));
    }
    if pat.len() <= line.len() && (forall|k: int|
        0 <= k < pat.len() ==> line[k] == pats[k]->Char_0) {
        assert(pat =~= line.subrange(0, pat.len() as int));
    }
    if pat.is_prefix_of(line) {
        assert forall|k: int| 0 <= k < pat.len() implies line[k] == pats[k]->Char_0 by {
            assert(pat[k] == line.subrange(0, pat.len() as int)[k]);
        }
    }
}

/// A lone digit-class instruction matches a line exactly when the line holds
/// an ASCII digit anywhere: the instruction scans, it does not compare in
/// place.
pub proof fn lemma_digit_match(line: Seq<char>, at_start: bool)
    ensures
        spec_matches(line, at_start, seq![PatternModel::Digit]) <==> (exists|i: int|
            0 <= i < line.len() && is_ascii_digit_char(line[i])),
{
    reveal_with_fuel(spec_consumed, 3);
    lemma_first_index_from(line, 0, digit_pred());
    assert(seq![PatternModel::Digit].subrange(1, 1) =~= Seq::<PatternModel>::empty());
    match first_index_from(line, 0, digit_pred()) {
        Some(k) => {
            assert(is_ascii_digit_char(line[k]));
        }
        None => {
            assert forall|i: int| 0 <= i < line.len() implies !is_ascii_digit_char(line[i]) by {
                assert(!(digit_pred()(line[i])));
            }
        }
    }
}

/// The pattern text `\\d` matches a line exactly when the line holds an ASCII
/// digit anywhere.
pub proof fn lemma_digit_pattern(line: Seq<char>)
    ensures
        spec_match_pattern(line, seq!['\\', 'd']) == Ok::<_, ParseError>(
            exists|i: int| 0 <= i < line.len() && is_ascii_digit_char(line[i]),
        ),
{
    let pat = seq!['\\', 'd'];
    reveal_with_fuel(spec_parse, 2);
    reveal_with_fuel(spec_parse_from, 3);
    assert(pat.len() == 2);
    assert(pat[0] == '\\');
    assert(pat[1] == 'd');
    assert(spec_parse_from(pat, 2, seq![PatternModel::Digit]) == Ok::<_, ParseError>(
        seq![PatternModel::Digit],
    ));
    assert(Seq::<PatternModel>::empty().push(PatternModel::Digit) =~= seq![PatternModel::Digit]);
    assert(spec_parse(pat) == Ok::<_, ParseError>(seq![PatternModel::Digit]));
    lemma_digit_match(line, true);
}

/// A lone word-class instruction matches a line exactly when the line holds an
/// ASCII alphanumeric-or-underscore character anywhere.
pub proof fn lemma_word_match(line: Seq<char>, at_start: bool)
    ensures
        spec_matches(line, at_start, seq![PatternModel::Word]) <==> (exists|i: int|
            0 <= i < line.len() && is_word_char(line[i])),
{
    reveal_with_fuel(spec_consumed, 3);
    lemma_first_index_from(line, 0, word_pred());
    assert(seq![PatternModel::Word].subrange(1, 1) =~= Seq::<PatternModel>::empty());
    match first_index_from(line, 0, word_pred()) {
        Some(k) => {
            assert(is_word_char(line[k]));
        }
        None => {
            assert forall|i: int| 0 <= i < line.len() implies !is_word_char(line[i]) by {
                assert(!(word_pred()(line[i])));
            }
        }
    }
}

/// The pattern text `\\w` matches a line exactly when the line holds a word
/// character anywhere.
pub proof fn lemma_word_pattern(line: Seq<char>)
    ensures
        spec_match_pattern(line, seq!['\\', 'w']) == Ok::<_, ParseError>(
            exists|i: int| 0 <= i < line.len() && is_word_char(line[i]),
        ),
{
    let pat = seq!['\\', 'w'];
    reveal_with_fuel(spec_parse, 2);
    reveal_with_fuel(spec_parse_from, 3);
    assert(pat.len() == 2);
    assert(pat[0] == '\\');
    assert(pat[1] == 'w');
    assert(spec_parse_from(pat, 2, seq![PatternModel::Word]) == Ok::<_, ParseError>(
        seq![PatternModel::Word],
    ));
    assert(Seq::<PatternModel>::empty().push(PatternModel::Word) =~= seq![PatternModel::Word]);
    assert(spec_parse(pat) == Ok::<_, ParseError>(seq![PatternModel::Word]));
    lemma_word_match(line, true);
}

/// A positive character set matches a line exactly when the line's first
/// character is a member of the set.
pub proof fn lemma_positive_set_match(line: Seq<char>, at_start: bool, set: Seq<char>)
    ensures
        spec_matches(line, at_start, seq![PatternModel::PositiveCharSet(set)]) <==> (line.len() > 0
            && set.contains(line[0])),
{
    reveal_with_fuel(spec_consumed, 3);
    assert(seq![PatternModel::PositiveCharSet(set)].subrange(1, 1)
        =~= Seq::<PatternModel>::empty());
}

/// A negative character set matches a line exactly when the line's first
/// character is not a member of the set (an empty line never matches).
pub proof fn lemma_negative_set_match(line: Seq<char>, at_start: bool, set: Seq<char>)
    ensures
        spec_matches(line, at_start, seq![PatternModel::NegativeCharSet(set)]) <==> (line.len() > 0
            && !set.contains(line[0])),
{
    reveal_with_fuel(spec_consumed, 3);
    assert(seq![PatternModel::NegativeCharSet(set)].subrange(1, 1)
        =~= Seq::<PatternModel>::empty());
}

/// A one-or-more instruction matches a line exactly when the line begins with
/// its character.
pub proof fn lemma_plus_match(line: Seq<char>, at_start: bool, c: char)
    ensures
        spec_matches(line, at_start, seq![PatternModel::Plus(c)]) <==> (line.len() > 0 && line[0]
            == c),
{
    reveal_with_fuel(spec_consumed, 3);
    lemma_leading_run(line, c);
    assert(seq![PatternModel::Plus(c)].subrange(1, 1) =~= Seq::<PatternModel>::empty());
}

/// A lone wildcard instruction matches exactly the non-empty lines.
pub proof fn lemma_dot_match(line: Seq<char>, at_start: bool)
    ensures
        spec_matches(line, at_start, seq![PatternModel::Dot]) <==> line.len() > 0,
{
    reveal_with_fuel(spec_consumed, 3);
    assert(seq![PatternModel::Dot].subrange(1, 1) =~= Seq::<PatternModel>::empty());
}

/// The start anchor consumes nothing and succeeds exactly when the cursor
/// still stands at the very start of the line.
pub proof fn lemma_start_match(line: Seq<char>, at_start: bool)
    ensures
        spec_matches(line, at_start, seq![PatternModel::Start]) <==> at_start,
{
    reveal_with_fuel(spec_consumed, 3);
    assert(seq![PatternModel::Start].subrange(1, 1) =~= Seq::<PatternModel>::empty());
}

/// The end anchor consumes nothing and succeeds exactly when the line is used
/// up.
pub proof fn lemma_end_match(line: Seq<char>, at_start: bool)
    ensures
        spec_matches(line, at_start, seq![PatternModel::End]) <==> line.len() == 0,
{
    reveal_with_fuel(spec_consumed, 3);
    assert(seq![PatternModel::End].subrange(1, 1) =~= Seq::<PatternModel>::empty());
}

/// At the start of the line a leading start anchor imposes nothing: the rest
/// of the sequence decides the match and the consumption.
pub proof fn lemma_leading_start_noop(line: Seq<char>, rest: Seq<PatternModel>)
    ensures
        spec_consumed(line, true, seq![PatternModel::Start] + rest) == spec_consumed(
            line,
            true,
            rest,
        ),
{
    let pats = seq![PatternModel::Start] + rest;
    assert(pats[0] == PatternModel::Start);
    assert(pats.subrange(1, pats.len() as int) =~= rest);
}

/// An alternation instruction matches a line exactly when one of its branch
/// sequences matches the whole remaining line, the left branch tried first.
pub proof fn lemma_alternation_match(
    line: Seq<char>,
    at_start: bool,
    a: Seq<PatternModel>,
    b: Seq<PatternModel>,
)
    ensures
        spec_matches(line, at_start, seq![PatternModel::Alternative(a, b)]) <==> (spec_matches(
            line,
            at_start,
            a,
        ) || spec_matches(line, at_start, b)),
{
    reveal_with_fuel(spec_consumed, 3);
    assert(seq![PatternModel::Alternative(a, b)].subrange(1, 1)
        =~= Seq::<PatternModel>::empty());
}

/// After a successful alternation branch the cursor advances by exactly what
/// that branch consumed, and only then do the instructions after the
/// alternation run; the left branch is tried first, and the right one only
/// when the left fails outright.
pub proof fn lemma_alternation_consumes(
    line: Seq<char>,
    at_start: bool,
    a: Seq<PatternModel>,
    b: Seq<PatternModel>,
    rest: Seq<PatternModel>,
)
    ensures
        spec_consumed(line, at_start, seq![PatternModel::Alternative(a, b)] + rest) == (match
            spec_consumed(line, at_start, a) {
            Some(n) => spec_consumed_after(line, at_start, n, rest),
            None => match spec_consumed(line, at_start, b) {
                Some(n) => spec_consumed_after(line, at_start, n, rest),
                None => None::<int>,
            },
        }),
{
    let pats = seq![PatternModel::Alternative(a, b)] + rest;
    assert(pats[0] == PatternModel::Alternative(a, b));
    assert(pats.subrange(1, pats.len() as int) =~= rest);
}

/// With instructions after it, a one-or-more instruction requires the line to
/// begin with its character, then consumes the maximal leading run of that
/// character greedily and hands only what follows the run to the rest of the
/// sequence.
pub proof fn lemma_plus_consumes_run(
    line: Seq<char>,
    at_start: bool,
    c: char,
    rest: Seq<PatternModel>,
)
    ensures
        spec_consumed(line, at_start, seq![PatternModel::Plus(c)] + rest) == (if line.len() > 0
            && line[0] == c {
            spec_consumed_after(line, at_start, leading_run(line, c), rest)
        } else {
            None::<int>
        }),
{
    let pats = seq![PatternModel::Plus(c)] + rest;
    assert(pats[0] == PatternModel::Plus(c));
    assert(pats.subrange(1, pats.len() as int) =~= rest);
}

/// An optional-character instruction consumes one copy of its character when
/// the line starts with it, consumes nothing otherwise, and never fails by
/// itself: the rest of the sequence decides the match.
pub proof fn lemma_zero_or_one_consumes(
    line: Seq<char>,
    at_start: bool,
    c: char,
    rest: Seq<PatternModel>,
)
    ensures
        spec_consumed(line, at_start, seq![PatternModel::ZeroOrOne(c)] + rest) == (if line.len()
            > 0 && line[0] == c {
            spec_consumed_after(line, at_start, 1, rest)
        } else {
            spec_consumed(line, at_start, rest)
        }),
{
    let pats = seq![PatternModel::ZeroOrOne(c)] + rest;
    assert(pats[0] == PatternModel::ZeroOrOne(c));
    assert(pats.subrange(1, pats.len() as int) =~= rest);
}

/// Compilation is a pure function of the pattern text: two compilations of the
/// same text give the very same outcome, instruction for instruction.
pub proof fn lemma_compile_deterministic(
    pat: Seq<char>,
    r1: Result<Seq<PatternModel>, ParseError>,
    r2: Result<Seq<PatternModel>, ParseError>,
)
    requires
        r1 == spec_parse(pat),
        r2 == spec_parse(pat),
    ensures
        r1 == r2,
{
}

/// A pattern whose leading `^` is followed by plain literal characters alone
/// matches a line if and only if the line starts with that literal text: the
/// anchor compiles to an ordinary first instruction and only pins the match to
/// the start of the line, which is where an unanchored match begins anyway.
pub proof fn lemma_caret_prefix(line: Seq<char>, pat: Seq<char>)
    requires
        pat.len() > 0,
        pat[0] == '^',
        forall|j: int| 1 <= j < pat.len() ==> is_plain_char(pat[j]),
    ensures
        spec_match_pattern(line, pat) == Ok::<_, ParseError>(
            pat.subrange(1, pat.len() as int).is_prefix_of(line),
        ),
{
    let tail = pat.subrange(1, pat.len() as int);
    reveal_with_fuel(spec_parse, 2);
    reveal_with_fuel(spec_parse_from, 2);
    lemma_push_instruction(Seq::<PatternModel>::empty(), PatternModel::Start);
    lemma_parse_literals_from(pat, 1, Seq::<PatternModel>::empty().push(PatternModel::Start));
    let pats = Seq::<PatternModel>::empty().push(PatternModel::Start) + literal_instructions(tail);
    assert(spec_parse(pat) == Ok::<_, ParseError>(pats));
    lemma_literal_instructions(tail);
    assert(pats =~= seq![PatternModel::Start] + literal_instructions(tail));
    assert(pats[0] == PatternModel::Start);
    lemma_leading_start_noop(line, literal_instructions(tail));
    lemma_literal_match(line, true, literal_instructions(tail));
    assert(spec_pattern_matches(line, pats) == spec_matches(
        line,
        true,
        literal_instructions(tail),
    ));
    if tail.len() <= line.len() && (forall|k: int|
        0 <= k < tail.len() ==> line[k] == literal_instructions(tail)[k]->Char_0) {
        assert(tail =~= line.subrange(0, tail.len() as int));
    }
    if tail.is_prefix_of(line) {
        assert forall|k: int| 0 <= k < tail.len() implies line[k] == literal_instructions(
            tail,
        )[k]->Char_0 by {
            assert(tail[k] == line.subrange(0, tail.len() as int)[k]);
        }
    }
}

/// A sequence of literal instructions closed by the end anchor.
pub open spec fn literal_then_end(text: Seq<char>) -> Seq<PatternModel> {
    literal_instructions(text).push(PatternModel::End)
}

proof fn lemma_parse_literals_then_end(pat: Seq<char>, i: int, acc: Seq<PatternModel>)
    requires
        0 <= i < pat.len(),
        pat.last() == '$',
        forall|j: int| i <= j < pat.len() - 1 ==> is_plain_char(pat[j]),
    ensures
        spec_parse_from(pat, i, acc) == Ok::<_, ParseError>(
            acc + literal_then_end(pat.subrange(i, pat.len() - 1)),
        ),
    decreases pat.len() - i,
{
    let sub = pat.subrange(i, pat.len() - 1);
    lemma_literal_instructions(sub);
    lemma_push_instruction(literal_instructions(sub), PatternModel::End);
    if i == pat.len() - 1 {
        // Only the `$` itself remains: it is compiled to the end anchor and
        // the scan stops.
        assert(pat[i] == '$');
        assert(sub.len() == 0);
        assert(acc.push(PatternModel::End) =~= acc + literal_then_end(sub));
    } else {
        let c = pat[i];
        assert(is_plain_char(c));
        assert(lit_of(c) == PatternModel::Char(c));
        lemma_parse_literals_then_end(pat, i + 1, acc.push(PatternModel::Char(c)));
        let sub2 = pat.subrange(i + 1, pat.len() - 1);
        lemma_literal_instructions(sub2);
        lemma_push_instruction(literal_instructions(sub2), PatternModel::End);
        let lhs = acc.push(PatternModel::Char(c)) + literal_then_end(sub2);
        let rhs = acc + literal_then_end(sub);
        assert forall|m: int| 0 <= m < rhs.len() implies lhs[m] == rhs[m] by {
            if m < acc.len() {
                assert(lhs[m] == acc.push(PatternModel::Char(c))[m]);
                assert(rhs[m] == acc[m]);
            } else if m == acc.len() {
                assert(lhs[m] == acc.push(PatternModel::Char(c))[m]);
                assert(rhs[m] == literal_then_end(sub)[0]);
                assert(literal_then_end(sub)[0] == literal_instructions(sub)[0]);
            } else {
                vstd::seq::axiom_seq_add_index2(
                    acc.push(PatternModel::Char(c)),
                    literal_then_end(sub2),
                    m,
                );
                vstd::seq::axiom_seq_add_index2(acc, literal_then_end(sub), m);
                assert(lhs[m] == literal_then_end(sub2)[m - acc.len() - 1]);
                assert(rhs[m] == literal_then_end(sub)[m - acc.len()]);
                if m - acc.len() < sub.len() {
                    assert(rhs[m] == literal_instructions(sub)[m - acc.len()]);
                    assert(lhs[m] == literal_instructions(sub2)[m - acc.len() - 1]);
                } else {
                    assert(rhs[m] == PatternModel::End);
                    assert(lhs[m] == PatternModel::End);
                }
            }
        }
        assert(lhs =~= rhs);
    }
}

/// Literal instructions closed by the end anchor match a line exactly when the
/// line holds the corresponding characters and nothing more: the anchor pins
/// the end of the match to the end of the line.
pub proof fn lemma_literal_end_consumed(line: Seq<char>, at_start: bool, pats: Seq<PatternModel>)
    requires
        pats.len() > 0,
        pats.last() == PatternModel::End,
        forall|k: int| 0 <= k < pats.len() - 1 ==> pats[k] is Char,
    ensures
        spec_matches(line, at_start, pats) <==> (line.len() == pats.len() - 1 && (forall|k: int|
            0 <= k < pats.len() - 1 ==> line[k] == pats[k]->Char_0)),
    decreases pats.len(),
{
    reveal_with_fuel(spec_consumed, 2);
    let rest = pats.subrange(1, pats.len() as int);
    if pats.len() == 1 {
        assert(pats[0] == PatternModel::End);
        assert(rest =~= Seq::<PatternModel>::empty());
    } else {
        let c = pats[0]->Char_0;
        assert(rest.last() == pats.last());
        if line.len() > 0 && line[0] == c {
            let tail = line.subrange(1, line.len() as int);
            lemma_literal_end_consumed(tail, false, rest);
            if spec_matches(line, at_start, pats) {
                assert forall|k: int| 0 <= k < pats.len() - 1 implies line[k]
                    == pats[k]->Char_0 by {
                    if k > 0 {
                        assert(tail[k - 1] == rest[k - 1]->Char_0);
                    }
                }
            }
            if line.len() == pats.len() - 1 && (forall|k: int|
                0 <= k < pats.len() - 1 ==> line[k] == pats[k]->Char_0) {
                assert forall|k: int| 0 <= k < rest.len() - 1 implies tail[k]
                    == rest[k]->Char_0 by {
                    assert(line[k + 1] == pats[k + 1]->Char_0);
                }
            }
        } else {
            // The lookahead pair cannot arise: the next instruction is a
            // literal or the end anchor, never an optional character.
            assert(pats.len() >= 2);
            assert(!(pats[1] is ZeroOrOne));
        }
    }
}

/// A pattern of plain literal characters closed by `$` matches a line if and
/// only if the line ends with that literal text: the anchor compiles to an
/// ordinary trailing instruction that constrains only where the match must
/// end, so the match may stand at whatever offset lets it finish there.
pub proof fn lemma_dollar_suffix(line: Seq<char>, pat: Seq<char>)
    requires
        pat.len() > 0,
        pat.last() == '$',
        forall|j: int| 0 <= j < pat.len() - 1 ==> is_plain_char(pat[j]),
    ensures
        spec_match_pattern(line, pat) == Ok::<_, ParseError>(
            pat.subrange(0, pat.len() - 1).is_suffix_of(line),
        ),
{
    let needle = pat.subrange(0, pat.len() - 1);
    reveal_with_fuel(spec_parse, 2);
    lemma_parse_literals_then_end(pat, 0, Seq::empty());
    lemma_literal_instructions(needle);
    lemma_push_instruction(literal_instructions(needle), PatternModel::End);
    let pats = literal_then_end(needle);
    assert(Seq::empty() + pats =~= pats);
    assert(spec_parse(pat) == Ok::<_, ParseError>(pats));
    assert(pats.last() == PatternModel::End);
    assert(!(pats[0] is Start));
    assert(forall|k: int| 0 <= k < pats.len() - 1 ==> pats[k] is Char);
    if needle.is_suffix_of(line) {
        let off = line.len() - needle.len();
        let window = line.subrange(off, line.len() as int);
        lemma_literal_end_consumed(window, off == 0, pats);
        assert forall|k: int| 0 <= k < pats.len() - 1 implies window[k] == pats[k]->Char_0 by {
            assert(needle[k] == line.subrange(
                line.len() - needle.len(),
                line.len() as int,
            )[k]);
        }
        assert(spec_matches(window, off == 0, pats));
        assert(spec_pattern_matches(line, pats));
    } else {
        assert forall|off: int| 0 <= off <= line.len() implies !spec_matches(
            line.subrange(off, line.len() as int),
            off == 0,
            pats,
        ) by {
            let window = line.subrange(off, line.len() as int);
            lemma_literal_end_consumed(window, off == 0, pats);
            if spec_matches(window, off == 0, pats) {
                assert(window.len() == needle.len());
                assert(off == line.len() - needle.len());
                assert forall|k: int| 0 <= k < needle.len() implies needle[k] == line.subrange(
                    line.len() - needle.len(),
                    line.len() as int,
                )[k] by {
                    assert(window[k] == pats[k]->Char_0);
                }
                assert(needle =~= line.subrange(line.len() - needle.len(), line.len() as int));
                assert(needle.is_suffix_of(line));
            }
        }
        assert(!spec_pattern_matches(line, pats));
    }
}

} // verus!
