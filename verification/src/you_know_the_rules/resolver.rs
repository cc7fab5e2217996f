//! Expressions with parentheses: each innermost group gives way to its value
//! until none is left.

use super::arithmetic::EvalError;
use super::evaluator::{evaluate_chars, evaluation};
use super::text::{chars_of, integer_text, lemma_natural_text, natural_text, push_integer};
use vstd::prelude::*;

verus! {

/// Why an expression with parentheses has no value.
#[derive(Debug, PartialEq, Eq)]
pub enum ResolveError {
    /// A group, or what was left when all groups were resolved, has no value:
    /// `input` is the whole expression as it was given, `cause` says what was
    /// wrong with the part.
    Inner { input: String, cause: EvalError },
    /// A `(` is left without its `)`.
    UnmatchedOpen,
    /// A `)` is left without its `(`.
    UnmatchedClose,
}

/// A `ResolveError` with its text as a sequence.
pub enum ResolveFailure {
    Inner { input: Seq<char>, cause: EvalError },
    UnmatchedOpen,
    UnmatchedClose,
}

impl View for ResolveError {
    type V = ResolveFailure;

    open spec fn view(&self) -> ResolveFailure {
        match self {
            ResolveError::Inner { input, cause } => ResolveFailure::Inner {
                input: input@,
                cause: *cause,
            },
            ResolveError::UnmatchedOpen => ResolveFailure::UnmatchedOpen,
            ResolveError::UnmatchedClose => ResolveFailure::UnmatchedClose,
        }
    }
}

/// The two parentheses.
pub open spec fn is_paren() -> spec_fn(char) -> bool {
    |c: char| c == '(' || c == ')'
}

/// How many parentheses `text` holds.
pub open spec fn paren_count(text: Seq<char>) -> nat {
    text.filter(is_paren()).len()
}

/// Where the last `(` before `end` stands.
pub open spec fn last_open_before(text: Seq<char>, end: int) -> Option<int>
    decreases end,
{
    if end <= 0 {
        None
    } else if text[end - 1] == '(' {
        Some(end - 1)
    } else {
        last_open_before(text, end - 1)
    }
}

/// `text` with the group from `open` to `close`, parentheses included,
/// replaced by the numeral of `value`.
pub open spec fn with_group_replaced(text: Seq<char>, open: int, close: int, value: int) -> Seq<
    char,
> {
    text.subrange(0, open) + integer_text(value) + text.subrange(close + 1, text.len() as int)
}

/// The value of `text`, a stage in resolving `given`. While `text` holds
/// both parentheses, the group that ends at its first `)` and starts at the
/// last `(` before that is evaluated and replaced by the numeral of its
/// value; a `)` with no `(` before it is unmatched. A text with one sort of
/// parenthesis only is unmatched; one with none is evaluated as it stands.
pub open spec fn resolution_in(given: Seq<char>, text: Seq<char>) -> Result<
    int,
    ResolveFailure,
>
    decreases paren_count(text),
    via resolution_in_decreases
{
    if text.contains('(') && text.contains(')') {
        let close = text.index_of_first(')').unwrap();
        match last_open_before(text, close) {
            None => Err(ResolveFailure::UnmatchedClose),
            Some(open) => match evaluation(text.subrange(open + 1, close)) {
                Ok(value) => resolution_in(
                    given,
                    with_group_replaced(text, open, close, value),
                ),
                Err(cause) => Err(ResolveFailure::Inner { input: given, cause }),
            },
        }
    } else if text.contains('(') {
        Err(ResolveFailure::UnmatchedOpen)
    } else if text.contains(')') {
        Err(ResolveFailure::UnmatchedClose)
    } else {
        match evaluation(text) {
            Ok(value) => Ok(value),
            Err(cause) => Err(ResolveFailure::Inner { input: given, cause }),
        }
    }
}

#[via_fn]
proof fn resolution_in_decreases(given: Seq<char>, text: Seq<char>) {
    if text.contains('(') && text.contains(')') {
        text.index_of_first_ensures(')');
        let close = text.index_of_first(')').unwrap();
        lemma_last_open_before(text, close);
        if let Some(open) = last_open_before(text, close) {
            if let Ok(value) = evaluation(text.subrange(open + 1, close)) {
                lemma_resolving_removes_parens(text, open, close, value);
            }
        }
    }
}

/// The value of an expression with parentheses.
pub open spec fn resolution(expression: Seq<char>) -> Result<int, ResolveFailure> {
    resolution_in(expression, expression)
}

/// The last `(` before `end` is a `(` before `end`, and no `(` stands
/// between it and `end`; there is none only where no `(` stands before `end`.
pub proof fn lemma_last_open_before(text: Seq<char>, end: int)
    requires
        0 <= end <= text.len(),
    ensures
        match last_open_before(text, end) {
            Some(open) => 0 <= open < end && text[open] == '(' && forall|i: int|
                open < i < end ==> text[i] != '(',
            None => forall|i: int| 0 <= i < end ==> text[i] != '(',
        },
    decreases end,
{
    if end > 0 && text[end - 1] != '(' {
        lemma_last_open_before(text, end - 1);
    }
}

/// A numeral holds no parenthesis.
pub proof fn lemma_numeral_has_no_paren(value: int)
    ensures
        paren_count(integer_text(value)) == 0,
{
    let text = integer_text(value);
    let magnitude = (if value < 0 {
        -value
    } else {
        value
    }) as nat;
    lemma_natural_text(magnitude);
    assert forall|i: int| 0 <= i < text.len() implies !is_paren()(#[trigger] text[i]) by {
        if value < 0 && i > 0 {
            assert(text[i] == natural_text(magnitude)[i - 1]);
        }
    }
    assert(text.all(|c: char| !is_paren()(c)));
    text.lemma_all_neg_filter_empty(is_paren());
}

/// Replacing a group by the numeral of its value leaves the text with fewer
/// parentheses.
pub proof fn lemma_resolving_removes_parens(text: Seq<char>, open: int, close: int, value: int)
    requires
        0 <= open < close < text.len(),
        text[open] == '(',
        text[close] == ')',
    ensures
        paren_count(with_group_replaced(text, open, close, value)) < paren_count(text),
{
    let before = text.subrange(0, open);
    let group = text.subrange(open, close + 1);
    let after = text.subrange(close + 1, text.len() as int);
    let inner = text.subrange(open + 1, close);
    assert(text =~= before + group + after);
    assert(group =~= seq!['('] + inner + seq![')']);
    Seq::filter_distributes_over_add(before + group, after, is_paren());
    Seq::filter_distributes_over_add(before, group, is_paren());
    Seq::filter_distributes_over_add(seq!['('] + inner, seq![')'], is_paren());
    Seq::filter_distributes_over_add(seq!['('], inner, is_paren());
    Seq::filter_distributes_over_add(before + integer_text(value), after, is_paren());
    Seq::filter_distributes_over_add(before, integer_text(value), is_paren());
    lemma_numeral_has_no_paren(value);
    assert(seq!['('].filter(is_paren()).len() == 1) by {
        assert(seq!['('] =~= Seq::<char>::empty().push('('));
        Seq::<char>::empty().lemma_filter_len_push(is_paren(), '(');
        Seq::<char>::empty().lemma_filter_len(is_paren());
    }
    assert(seq![')'].filter(is_paren()).len() == 1) by {
        assert(seq![')'] =~= Seq::<char>::empty().push(')'));
        Seq::<char>::empty().lemma_filter_len_push(is_paren(), ')');
        Seq::<char>::empty().lemma_filter_len(is_paren());
    }
}

/// Appends the characters of `source` from `from` up to `to` to `out`.
fn push_range(out: &mut Vec<char>, source: &Vec<char>, from: usize, to: usize)
    requires
        from <= to <= source.len(),
    ensures
        final(out)@ == old(out)@ + source@.subrange(from as int, to as int),
{
    let mut i = from;
    while i < to
        invariant
            from <= i <= to <= source.len(),
            out@ == old(out)@ + source@.subrange(from as int, i as int),
        decreases to - i,
    {
        out.push(source[i]);
        proof {
            assert(source@.subrange(from as int, i + 1) =~= source@.subrange(
                from as int,
                i as int,
            ).push(source@[i as int]));
        }
        i += 1;
    }
}

/// The first `)` of `text` and the last `(` before it; without a `)`, the
/// last `(` of all.
fn innermost_group(text: &Vec<char>) -> (found: (Option<usize>, Option<usize>))
    ensures
        match found.1 {
            Some(close) => {
                &&& text@.index_of_first(')') == Some(close as int)
                &&& close < text.len()
                &&& text@[close as int] == ')'
                &&& match found.0 {
                    Some(open) => last_open_before(text@, close as int) == Some(open as int)
                        && open < close && text@[open as int] == '(',
                    None => last_open_before(text@, close as int) is None,
                }
            },
            None => {
                &&& !text@.contains(')')
                &&& found.0 is Some == text@.contains('(')
            },
        },
{
    let mut open: Option<usize> = None;
    let mut i: usize = 0;
    while i < text.len()
        invariant
            i <= text.len(),
            forall|j: int| 0 <= j < i ==> text@[j] != ')',
            match open {
                Some(open) => last_open_before(text@, i as int) == Some(open as int) && open < i,
                None => last_open_before(text@, i as int) is None,
            },
        decreases text.len() - i,
    {
        let c = text[i];
        if c == ')' {
            proof {
                text@.index_of_first_ensures(')');
                assert(text@.contains(')'));
                let first = text@.index_of_first(')').unwrap();
                if first < i {
                    assert(text@[first] != ')');
                }
                lemma_last_open_before(text@, i as int);
            }
            return (open, Some(i));
        }
        if c == '(' {
            open = Some(i);
        }
        i += 1;
    }
    proof {
        lemma_last_open_before(text@, i as int);
        if let Some(at) = open {
            assert(text@[at as int] == '(');
        }
    }
    (open, None)
}

/// A result of the library, read as one over the integers and sequences.
pub open spec fn outcome(r: Result<i64, ResolveError>) -> Result<int, ResolveFailure> {
    match r {
        Ok(value) => Ok(value as int),
        Err(e) => Err(e@),
    }
}

/// Whether `result` is what resolving `expression` gives.
pub open spec fn resolves_to(expression: Seq<char>, result: Result<i64, ResolveError>) -> bool {
    outcome(result) == resolution(expression)
}

/// Evaluates an expression that may hold parentheses.
pub fn deparenthesizer(input: &String) -> (r: Result<i64, ResolveError>)
    ensures
        resolves_to(input@, r),
{
    let mut working = chars_of(input.as_str());
    loop
        invariant
            resolution(input@) == resolution_in(input@, working@),
        decreases paren_count(working@),
    {
        match innermost_group(&working) {
            (Some(open), Some(close)) => {
                let mut group: Vec<char> = Vec::new();
                push_range(&mut group, &working, open + 1, close);
                proof {
                    assert(working@.contains('('));
                    assert(group@ =~= working@.subrange(open + 1, close as int));
                }
                let value = match evaluate_chars(&group) {
                    Ok(value) => value,
                    Err(cause) => {
                        return Err(ResolveError::Inner { input: input.clone(), cause });
                    },
                };
                let mut next: Vec<char> = Vec::new();
                push_range(&mut next, &working, 0, open);
                push_integer(&mut next, value);
                push_range(&mut next, &working, close + 1, working.len());
                proof {
                    assert(next@ =~= with_group_replaced(
                        working@,
                        open as int,
                        close as int,
                        value as int,
                    ));
                    lemma_resolving_removes_parens(
                        working@,
                        open as int,
                        close as int,
                        value as int,
                    );
                }
                working = next;
            },
            (None, Some(_)) => {
                return Err(ResolveError::UnmatchedClose);
            },
            (Some(_), None) => {
                return Err(ResolveError::UnmatchedOpen);
            },
            (None, None) => {
                return match evaluate_chars(&working) {
                    Ok(value) => Ok(value),
                    Err(cause) => Err(ResolveError::Inner { input: input.clone(), cause }),
                };
            },
        }
    }
}

/// Resolving one expression twice gives one result: the same value, or the
/// same error with the same text.
pub proof fn lemma_resolution_is_unique(
    expression: Seq<char>,
    first: Result<i64, ResolveError>,
    second: Result<i64, ResolveError>,
)
    requires
        resolves_to(expression, first),
        resolves_to(expression, second),
    ensures
        outcome(first) == outcome(second),
        first is Ok ==> first == second,
{
}

} // verus!
