//! Quote-aware splitting of an input line into tokens.

use vstd::prelude::*;

verus! {

/// What the scanner remembers between two characters.
pub struct ScanState {
    /// The tokens completed so far, in input order.
    pub tokens: Seq<Seq<char>>,
    /// The token being accumulated.
    pub current: Seq<char>,
    /// Whether an odd number of quote characters has been seen.
    pub inside_quotes: bool,
}

/// The scanner's state before the first character.
pub open spec fn scan_start() -> ScanState {
    ScanState { tokens: Seq::empty(), current: Seq::empty(), inside_quotes: false }
}

/// The scanner's state after one more character `c`.
pub open spec fn scan_step(state: ScanState, c: char, delimiter: char) -> ScanState {
    if c == '"' {
        ScanState { inside_quotes: !state.inside_quotes, ..state }
    } else if c == delimiter && !state.inside_quotes {
        if state.current.len() == 0 {
            state
        } else {
            ScanState { tokens: state.tokens.push(state.current), current: Seq::empty(), ..state }
        }
    } else {
        ScanState { current: state.current.push(c), ..state }
    }
}

/// The scanner's state after all of `input`.
pub open spec fn scan(input: Seq<char>, delimiter: char) -> ScanState
    decreases input.len(),
{
    if input.len() == 0 {
        scan_start()
    } else {
        scan_step(scan(input.drop_last(), delimiter), input.last(), delimiter)
    }
}

/// The tokens of `input`: the completed ones, then whatever was being
/// accumulated when the input ended, even if that is empty.
pub open spec fn split_outside_quotes(input: Seq<char>, delimiter: char) -> Seq<Seq<char>> {
    let end = scan(input, delimiter);
    end.tokens.push(end.current)
}

/// Splits `input` at each `delimiter` that stands outside double quotes.
pub fn split_input_outside_quotes(input: String, delimiter: char) -> (output: Vec<String>)
    ensures
        output.deep_view() == split_outside_quotes(input@, delimiter),
{
    let mut output: Vec<String> = Vec::new();
    let mut current = String::new();
    let mut inside_quotes = false;

    for c in it: input.chars()
        invariant
            it.seq() == input@,
            output.deep_view() == scan(input@.take(it.index()), delimiter).tokens,
            current@ == scan(input@.take(it.index()), delimiter).current,
            inside_quotes == scan(input@.take(it.index()), delimiter).inside_quotes,
    {
        proof {
            let seen = input@.take(it.index() + 1);
            assert(seen.drop_last() == input@.take(it.index()));
            assert(seen.last() == c);
        }
        let ghost before = output.deep_view();
        if c == '"' {
            inside_quotes = !inside_quotes;
        } else if c == delimiter && !inside_quotes {
            if !current.as_str().is_empty() {
                output.push(current);
                assert(output.deep_view() == before.push(current@));
                current = String::new();
            }
        } else {
            current.push(c);
        }
    }

    assert(input@.take(input@.len() as int) == input@);
    let ghost completed = output.deep_view();
    output.push(current);
    assert(output.deep_view() == completed.push(current@));
    output
}

/// Splits `input` at each space that stands outside double quotes.
pub fn split_input_outside_quotes_on_whitespace(input: String) -> (output: Vec<String>)
    ensures
        output.deep_view() == split_outside_quotes(input@, ' '),
{
    split_input_outside_quotes(input, ' ')
}

/// How many quote characters `input` holds.
pub open spec fn quote_count(input: Seq<char>) -> nat {
    input.filter(|c: char| c == '"').len()
}

/// The tokens are never none: an input always has a last token, which may
/// be empty.
pub proof fn lemma_split_has_a_token(input: Seq<char>, delimiter: char)
    ensures
        split_outside_quotes(input, delimiter).len() >= 1,
{
}

/// No completed token is empty, and no quote character is in a completed
/// token or in the token being accumulated.
proof fn lemma_scan_tokens(input: Seq<char>, delimiter: char)
    ensures
        forall|i: int|
            0 <= i < scan(input, delimiter).tokens.len() ==> (#[trigger] scan(
                input,
                delimiter,
            ).tokens[i]).len() > 0,
        forall|i: int|
            0 <= i < scan(input, delimiter).tokens.len() ==> !(#[trigger] scan(
                input,
                delimiter,
            ).tokens[i]).contains('"'),
        !scan(input, delimiter).current.contains('"'),
    decreases input.len(),
{
    if input.len() > 0 {
        let before = scan(input.drop_last(), delimiter);
        lemma_scan_tokens(input.drop_last(), delimiter);
        let after = scan(input, delimiter);
        assert forall|i: int| 0 <= i < after.tokens.len() implies (#[trigger] after.tokens[i]).len()
            > 0 && !after.tokens[i].contains('"') by {
            if i < before.tokens.len() {
                assert(after.tokens[i] == before.tokens[i]);
            }
        }
        if after.current.contains('"') {
            let k = choose|k: int| 0 <= k < after.current.len() && after.current[k] == '"';
            if k < before.current.len() {
                assert(before.current[k] == '"');
            }
        }
    }
}

/// Every token but the last holds at least one character: delimiters that
/// follow one another make no empty tokens.
pub proof fn lemma_only_last_token_may_be_empty(input: Seq<char>, delimiter: char)
    ensures
        forall|i: int|
            0 <= i < split_outside_quotes(input, delimiter).len() - 1 ==> (
            #[trigger] split_outside_quotes(input, delimiter)[i]).len() > 0,
{
    lemma_scan_tokens(input, delimiter);
    let end = scan(input, delimiter);
    assert forall|i: int| 0 <= i < split_outside_quotes(input, delimiter).len() - 1 implies (
    #[trigger] split_outside_quotes(input, delimiter)[i]).len() > 0 by {
        assert(split_outside_quotes(input, delimiter)[i] == end.tokens[i]);
    }
}

/// No token holds a quote character.
pub proof fn lemma_tokens_hold_no_quote(input: Seq<char>, delimiter: char)
    ensures
        forall|i: int|
            0 <= i < split_outside_quotes(input, delimiter).len() ==> !(
            #[trigger] split_outside_quotes(input, delimiter)[i]).contains('"'),
{
    lemma_scan_tokens(input, delimiter);
    let end = scan(input, delimiter);
    assert forall|i: int| 0 <= i < split_outside_quotes(input, delimiter).len() implies !(
    #[trigger] split_outside_quotes(input, delimiter)[i]).contains('"') by {
        if i < end.tokens.len() {
            assert(split_outside_quotes(input, delimiter)[i] == end.tokens[i]);
        }
    }
}

/// The scanner is inside quotes exactly when it has seen an odd number of
/// quote characters.
pub proof fn lemma_inside_quotes_iff_odd(input: Seq<char>, delimiter: char)
    ensures
        scan(input, delimiter).inside_quotes == (quote_count(input) % 2 == 1),
    decreases input.len(),
{
    reveal(Seq::filter);
    if input.len() > 0 {
        lemma_inside_quotes_iff_odd(input.drop_last(), delimiter);
    }
}

/// Inside quotes every character but a quote is content: a span without
/// quote characters goes to the token being accumulated as it stands,
/// delimiters included.
pub proof fn lemma_quoted_span(prefix: Seq<char>, span: Seq<char>, delimiter: char)
    requires
        scan(prefix, delimiter).inside_quotes,
        !span.contains('"'),
    ensures
        scan(prefix + span, delimiter) == (ScanState {
            current: scan(prefix, delimiter).current + span,
            ..scan(prefix, delimiter)
        }),
    decreases span.len(),
{
    let start = scan(prefix, delimiter);
    if span.len() == 0 {
        assert(prefix + span == prefix);
        assert(start.current + span == start.current);
    } else {
        assert(!span.drop_last().contains('"')) by {
            if span.drop_last().contains('"') {
                let k = choose|k: int| 0 <= k < span.drop_last().len() && span.drop_last()[k] == '"';
                assert(span[k] == '"');
            }
        }
        lemma_quoted_span(prefix, span.drop_last(), delimiter);
        assert((prefix + span).drop_last() == prefix + span.drop_last());
        assert(span.last() != '"') by {
            assert(span[span.len() - 1] == span.last());
        }
        assert((start.current + span.drop_last()).push(span.last()) == start.current + span);
    }
}

/// A quote that is never closed loses nothing: where the input holds an odd
/// number of quote characters, all that follows the last of them is the end
/// of the last token, and the tokens before it are those of the input up to
/// that quote.
pub proof fn lemma_unterminated_quote(input: Seq<char>, delimiter: char, last_quote: int)
    requires
        quote_count(input) % 2 == 1,
        0 <= last_quote < input.len(),
        input[last_quote] == '"',
        forall|k: int| last_quote < k < input.len() ==> input[k] != '"',
    ensures
        split_outside_quotes(input, delimiter).last() == split_outside_quotes(
            input.take(last_quote),
            delimiter,
        ).last() + input.skip(last_quote + 1),
        split_outside_quotes(input, delimiter).drop_last() == split_outside_quotes(
            input.take(last_quote),
            delimiter,
        ).drop_last(),
{
    let opened = input.take(last_quote + 1);
    let tail = input.skip(last_quote + 1);
    assert(opened + tail == input);
    assert(opened.drop_last() == input.take(last_quote));
    assert(!tail.contains('"'));
    lemma_inside_quotes_iff_odd(input, delimiter);
    lemma_inside_quotes_iff_odd(opened, delimiter);
    assert(quote_count(input) == quote_count(opened)) by {
        lemma_no_quote_counts_zero(tail);
        Seq::filter_distributes_over_add(opened, tail, |c: char| c == '"');
    }
    lemma_quoted_span(opened, tail, delimiter);
    let before = scan(input.take(last_quote), delimiter);
    let end = scan(input, delimiter);
    assert(end.tokens.push(end.current).drop_last() == end.tokens);
    assert(before.tokens.push(before.current).drop_last() == before.tokens);
}

/// A text without quote characters holds none of them.
proof fn lemma_no_quote_counts_zero(text: Seq<char>)
    requires
        !text.contains('"'),
    ensures
        quote_count(text) == 0,
    decreases text.len(),
{
    reveal(Seq::filter);
    if text.len() > 0 {
        assert(text[text.len() - 1] == text.last());
        assert(!text.drop_last().contains('"')) by {
            if text.drop_last().contains('"') {
                let k = choose|k: int| 0 <= k < text.drop_last().len() && text.drop_last()[k] == '"';
                assert(text[k] == '"');
            }
        }
        lemma_no_quote_counts_zero(text.drop_last());
    }
}

/// Where the input holds no quote character, no token holds the delimiter.
pub proof fn lemma_unquoted_tokens_hold_no_delimiter(input: Seq<char>, delimiter: char)
    requires
        !input.contains('"'),
    ensures
        forall|i: int|
            0 <= i < split_outside_quotes(input, delimiter).len() ==> !(
            #[trigger] split_outside_quotes(input, delimiter)[i]).contains(delimiter),
{
    lemma_unquoted_scan(input, delimiter);
    let end = scan(input, delimiter);
    assert forall|i: int| 0 <= i < split_outside_quotes(input, delimiter).len() implies !(
    #[trigger] split_outside_quotes(input, delimiter)[i]).contains(delimiter) by {
        if i < end.tokens.len() {
            assert(split_outside_quotes(input, delimiter)[i] == end.tokens[i]);
        }
    }
}

/// Without quote characters the scanner stays outside quotes and lets no
/// delimiter into a token.
proof fn lemma_unquoted_scan(input: Seq<char>, delimiter: char)
    requires
        !input.contains('"'),
    ensures
        !scan(input, delimiter).inside_quotes,
        forall|i: int|
            0 <= i < scan(input, delimiter).tokens.len() ==> !(#[trigger] scan(
                input,
                delimiter,
            ).tokens[i]).contains(delimiter),
        !scan(input, delimiter).current.contains(delimiter),
    decreases input.len(),
{
    if input.len() > 0 {
        assert(input[input.len() - 1] == input.last());
        assert(!input.drop_last().contains('"')) by {
            if input.drop_last().contains('"') {
                let k = choose|k: int|
                    0 <= k < input.drop_last().len() && input.drop_last()[k] == '"';
                assert(input[k] == '"');
            }
        }
        let before = scan(input.drop_last(), delimiter);
        lemma_unquoted_scan(input.drop_last(), delimiter);
        let after = scan(input, delimiter);
        assert forall|i: int| 0 <= i < after.tokens.len() implies !(
        #[trigger] after.tokens[i]).contains(delimiter) by {
            if i < before.tokens.len() {
                assert(after.tokens[i] == before.tokens[i]);
            }
        }
        if after.current.contains(delimiter) {
            let k = choose|k: int| 0 <= k < after.current.len() && after.current[k] == delimiter;
            if k < before.current.len() {
                assert(before.current[k] == delimiter);
            }
        }
    }
}

/// Whether the character at position `i` of `input` goes into a token:
/// it is no quote character, and no delimiter that stands outside quotes,
/// that is after an even number of quote characters.
pub open spec fn is_kept(input: Seq<char>, delimiter: char, i: int) -> bool {
    &&& input[i] != '"'
    &&& !(input[i] == delimiter && quote_count(input.take(i)) % 2 == 0)
}

/// The characters of `input` that go into tokens, in their order.
pub open spec fn kept(input: Seq<char>, delimiter: char) -> Seq<char>
    decreases input.len(),
{
    if input.len() == 0 {
        Seq::empty()
    } else if is_kept(input, delimiter, input.len() - 1) {
        kept(input.drop_last(), delimiter).push(input.last())
    } else {
        kept(input.drop_last(), delimiter)
    }
}

/// The completed tokens and the token being accumulated hold, one after
/// another, the characters seen so far that go into tokens.
proof fn lemma_scan_keeps(input: Seq<char>, delimiter: char)
    ensures
        scan(input, delimiter).tokens.flatten() + scan(input, delimiter).current == kept(
            input,
            delimiter,
        ),
    decreases input.len(),
{
    if input.len() == 0 {
        assert(Seq::<Seq<char>>::empty().flatten() + Seq::<char>::empty() == Seq::<char>::empty());
    } else {
        let before = scan(input.drop_last(), delimiter);
        lemma_scan_keeps(input.drop_last(), delimiter);
        lemma_inside_quotes_iff_odd(input.drop_last(), delimiter);
        assert(input.take(input.len() - 1) == input.drop_last());
        let c = input.last();
        if c != '"' && c == delimiter && !before.inside_quotes && before.current.len() > 0 {
            before.tokens.lemma_flatten_push(before.current);
            assert(before.tokens.flatten() + before.current + Seq::<char>::empty()
                == before.tokens.flatten() + before.current);
        } else if c != '"' && !(c == delimiter && !before.inside_quotes) {
            assert(before.tokens.flatten() + before.current.push(c) == (before.tokens.flatten()
                + before.current).push(c));
        }
    }
}

/// Splitting loses nothing but quote characters and the delimiters outside
/// quotes: the tokens, written one after another, are the other characters
/// of the input in their order.
pub proof fn lemma_tokens_keep_the_content(input: Seq<char>, delimiter: char)
    ensures
        split_outside_quotes(input, delimiter).flatten() == kept(input, delimiter),
{
    let end = scan(input, delimiter);
    lemma_scan_keeps(input, delimiter);
    end.tokens.lemma_flatten_push(end.current);
}

} // verus!
