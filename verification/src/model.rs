//! The tokenizer as mathematics: what each parsing step does to an abstract state.
//!
//! Every function here is a total function of the state. The executable lexer is
//! proved to compute exactly these.

use vstd::prelude::*;
use crate::event::{Diagnostic, EventView};
use crate::symbol::{chars_of, Symbol};

verus! {

/// The abstract state of a tokenizer.
pub struct State {
    /// The whole input; it never changes.
    pub input: Seq<Symbol>,
    /// How many symbols have been consumed.
    pub pos: int,
    /// Names of the elements that are open, innermost last.
    pub open_tags: Seq<Seq<char>>,
    /// The events emitted so far.
    pub events: Seq<EventView>,
    /// The diagnostics reported so far.
    pub diagnostics: Seq<Diagnostic>,
}

impl State {
    /// The state before anything of `input` has been consumed.
    pub open spec fn start(input: Seq<Symbol>) -> State {
        State {
            input,
            pos: 0,
            open_tags: Seq::empty(),
            events: Seq::empty(),
            diagnostics: Seq::empty(),
        }
    }

    /// The cursor lies within the input.
    pub open spec fn in_bounds(self) -> bool {
        0 <= self.pos <= self.input.len()
    }

    /// The state with the cursor moved to `to`.
    pub open spec fn advance(self, to: int) -> State {
        State { pos: to, ..self }
    }

    /// The state with `event` appended to the events.
    pub open spec fn emit(self, event: EventView) -> State {
        State { events: self.events.push(event), ..self }
    }

    /// The state with `diagnostic` appended to the diagnostics.
    pub open spec fn report(self, diagnostic: Diagnostic) -> State {
        State { diagnostics: self.diagnostics.push(diagnostic), ..self }
    }

    /// The state with `name` opened as the innermost element.
    pub open spec fn push_tag(self, name: Seq<char>) -> State {
        State { open_tags: self.open_tags.push(name), ..self }
    }

    /// The state with the innermost element closed.
    pub open spec fn pop_tag(self) -> State {
        State { open_tags: self.open_tags.drop_last(), ..self }
    }

    /// Whether the symbol under the cursor plus `offset` exists and is the character `c`.
    pub open spec fn sees(self, offset: int, c: char) -> bool {
        has_char(self.input, self.pos + offset, c)
    }
}

/// Whether position `i` of `input` exists and holds the character `c`.
pub open spec fn has_char(input: Seq<Symbol>, i: int, c: char) -> bool {
    0 <= i < input.len() && input[i].ch == c
}

/// Whitespace.
pub open spec fn is_space() -> spec_fn(Symbol) -> bool {
    |s: Symbol| s.whitespace
}

/// What a tag name is made of: alphabetic or alphanumeric characters.
pub open spec fn is_name_char() -> spec_fn(Symbol) -> bool {
    |s: Symbol| s.alphabetic || s.alphanumeric
}

/// What an attribute key is made of: name characters, `-` and `_`.
pub open spec fn is_key_char() -> spec_fn(Symbol) -> bool {
    |s: Symbol| s.alphabetic || s.alphanumeric || s.ch == '-' || s.ch == '_'
}

/// What an unquoted attribute value is made of: anything but whitespace, `>` and `/`.
pub open spec fn is_bare_value_char() -> spec_fn(Symbol) -> bool {
    |s: Symbol| !s.whitespace && s.ch != '>' && s.ch != '/'
}

/// What the inside of a quoted attribute value is made of: anything but `"`.
pub open spec fn is_quoted_char() -> spec_fn(Symbol) -> bool {
    |s: Symbol| s.ch != '"'
}

/// What a text run is made of: anything but `<`.
pub open spec fn is_text_char() -> spec_fn(Symbol) -> bool {
    |s: Symbol| s.ch != '<'
}

/// What text normalization keeps: anything but a newline or a tab.
pub open spec fn is_kept_in_text() -> spec_fn(Symbol) -> bool {
    |s: Symbol| s.ch != '\n' && s.ch != '\t'
}

/// The end of the maximal run of symbols in `class` that starts at `from`:
/// the first position at or after `from` that is past the input or not in `class`.
pub open spec fn run_end(input: Seq<Symbol>, from: int, class: spec_fn(Symbol) -> bool) -> int
    decreases input.len() - from,
{
    if 0 <= from < input.len() && class(input[from]) {
        run_end(input, from + 1, class)
    } else {
        from
    }
}

/// A run ends at or after its start and within the input, everything in it is in
/// `class`, and what follows it, if anything, is not.
pub proof fn lemma_run_end(input: Seq<Symbol>, from: int, class: spec_fn(Symbol) -> bool)
    ensures
        from <= run_end(input, from, class),
        from <= input.len() ==> run_end(input, from, class) <= input.len(),
        forall|i: int| from <= i < run_end(input, from, class) ==> class(#[trigger] input[i]),
        0 <= from && run_end(input, from, class) < input.len() ==> !class(
            input[run_end(input, from, class)],
        ),
    decreases input.len() - from,
{
    if 0 <= from < input.len() && class(input[from]) {
        lemma_run_end(input, from + 1, class);
    }
}

/// A run is determined by what it holds: if everything in `input[from..to]` is in
/// `class` and `to` is the end of the input or not in `class`, the run from `from` ends at `to`.
pub proof fn lemma_run_end_unique(
    input: Seq<Symbol>,
    from: int,
    to: int,
    class: spec_fn(Symbol) -> bool,
)
    requires
        0 <= from <= to <= input.len(),
        forall|i: int| from <= i < to ==> class(#[trigger] input[i]),
        to < input.len() ==> !class(input[to]),
    ensures
        run_end(input, from, class) == to,
    decreases to - from,
{
    if from < to {
        lemma_run_end_unique(input, from + 1, to, class);
    }
}

/// The first position at or after `from` that is not whitespace.
pub open spec fn skip_space(input: Seq<Symbol>, from: int) -> int {
    run_end(input, from, is_space())
}

/// The characters of `input[from..to]`.
pub open spec fn spelled(input: Seq<Symbol>, from: int, to: int) -> Seq<char> {
    chars_of(input.subrange(from, to))
}

/// `run` without its leading whitespace.
pub open spec fn trim_start(run: Seq<Symbol>) -> Seq<Symbol> {
    run.subrange(skip_space(run, 0), run.len() as int)
}

/// `run` without its trailing whitespace.
pub open spec fn trim_end(run: Seq<Symbol>) -> Seq<Symbol>
    decreases run.len(),
{
    if run.len() > 0 && run.last().whitespace {
        trim_end(run.drop_last())
    } else {
        run
    }
}

/// Trimming the end of a run leaves its first `keep` symbols, where everything from
/// `keep` on is whitespace and the symbol before `keep`, if any, is not.
pub proof fn lemma_trim_end(run: Seq<Symbol>, keep: int)
    requires
        0 <= keep <= run.len(),
        forall|i: int| keep <= i < run.len() ==> (#[trigger] run[i]).whitespace,
        keep > 0 ==> !run[keep - 1].whitespace,
    ensures
        trim_end(run) == run.take(keep),
    decreases run.len(),
{
    if keep < run.len() {
        lemma_trim_end(run.drop_last(), keep);
        assert(run.drop_last().take(keep) =~= run.take(keep));
    } else {
        assert(run.take(keep) =~= run);
    }
}

/// The text of a raw run: newlines and tabs are deleted (not replaced by a space),
/// then whitespace is trimmed from both ends.
pub open spec fn normalized(run: Seq<Symbol>) -> Seq<char> {
    chars_of(trim_end(trim_start(run.filter(is_kept_in_text()))))
}

/// The value of the attribute whose key ends at `at`, and where the value ends.
///
/// Without `=` there is no value. After `="` the value runs to the next `"`, which is
/// consumed but not part of the value (an unclosed quote takes the rest of the input).
/// Otherwise the value runs to the first whitespace, `>` or `/`.
pub open spec fn attribute_value(input: Seq<Symbol>, at: int) -> (Seq<char>, int) {
    if !has_char(input, at, '=') {
        (Seq::empty(), at)
    } else if has_char(input, at + 1, '"') {
        let close = run_end(input, at + 2, is_quoted_char());
        (spelled(input, at + 2, close), if close < input.len() { close + 1 } else { close })
    } else {
        let end = run_end(input, at + 1, is_bare_value_char());
        (spelled(input, at + 1, end), end)
    }
}

/// One attribute: whitespace, a key, an optional value, whitespace.
pub open spec fn attribute(st: State) -> State {
    let key_start = skip_space(st.input, st.pos);
    let key_end = run_end(st.input, key_start, is_key_char());
    let value = attribute_value(st.input, key_end);
    st.emit(EventView::Attribute(spelled(st.input, key_start, key_end), value.0)).advance(
        skip_space(st.input, value.1),
    )
}

/// Whether another attribute is read at the cursor: a symbol is there, it is neither
/// `>` nor `/`, and reading an attribute there consumes something.
///
/// The last condition keeps the attribute list finite: a symbol that no attribute
/// can begin with ends the list and is left where it is.
pub open spec fn more_attributes(st: State) -> bool {
    &&& 0 <= st.pos < st.input.len()
    &&& !st.sees(0, '>')
    &&& !st.sees(0, '/')
    &&& attribute(st).pos > st.pos
}

/// Reading an attribute keeps the cursor within the input and never moves it back.
pub proof fn lemma_attribute_bounds(st: State)
    requires
        st.in_bounds(),
    ensures
        attribute(st).in_bounds(),
        attribute(st).pos >= st.pos,
        attribute(st).input == st.input,
{
    let key_start = skip_space(st.input, st.pos);
    lemma_run_end(st.input, st.pos, is_space());
    let key_end = run_end(st.input, key_start, is_key_char());
    lemma_run_end(st.input, key_start, is_key_char());
    lemma_run_end(st.input, key_end + 2, is_quoted_char());
    lemma_run_end(st.input, key_end + 1, is_bare_value_char());
    lemma_run_end(st.input, attribute_value(st.input, key_end).1, is_space());
}

/// Reading an attribute consumes something exactly if the symbol under the cursor is
/// whitespace, a key character or `=`.
pub proof fn lemma_attribute_progress(st: State)
    requires
        0 <= st.pos < st.input.len(),
    ensures
        attribute(st).pos > st.pos <==> st.input[st.pos].whitespace || is_key_char()(
            st.input[st.pos],
        ) || st.input[st.pos].ch == '=',
{
    let here = st.input[st.pos];
    let key_start = skip_space(st.input, st.pos);
    let key_end = run_end(st.input, key_start, is_key_char());
    let value_end = attribute_value(st.input, key_end).1;
    lemma_run_end(st.input, st.pos + 1, is_space());
    lemma_run_end(st.input, key_start, is_key_char());
    lemma_run_end(st.input, key_start + 1, is_key_char());
    lemma_run_end(st.input, key_end + 2, is_quoted_char());
    lemma_run_end(st.input, key_end + 1, is_bare_value_char());
    lemma_run_end(st.input, value_end, is_space());
    assert(key_start > st.pos <==> is_space()(here));
    if !here.whitespace {
        assert(key_end > st.pos <==> is_key_char()(here));
        if !is_key_char()(here) {
            assert(value_end > st.pos <==> here.ch == '=');
        }
    }
}

/// Reading an attribute appends one event and touches neither the open tags nor
/// the diagnostics.
pub proof fn lemma_attribute_frame(st: State)
    ensures
        attribute(st).open_tags == st.open_tags,
        attribute(st).diagnostics == st.diagnostics,
        attribute(st).events.len() == st.events.len() + 1,
        attribute(st).events.take(st.events.len() as int) == st.events,
        attribute(st).events.last() is Attribute,
{
    assert(attribute(st).events.take(st.events.len() as int) =~= st.events);
}

/// The attribute list of a start tag: attributes are read as long as there are more.
pub open spec fn attributes(st: State) -> State
    decreases st.input.len() - st.pos,
{
    if more_attributes(st) {
        proof {
            lemma_attribute_bounds(st);
        }
        attributes(attribute(st))
    } else {
        st
    }
}

/// A start tag at the cursor, which sees `<`: the name, the attributes, and then
/// `/>` (the element is closed at once), `>` (it stays open), or neither (a
/// diagnostic; the offending symbol is left for the next token).
pub open spec fn start_tag(st: State) -> State {
    let name_end = run_end(st.input, st.pos + 1, is_name_char());
    let name = spelled(st.input, st.pos + 1, name_end);
    let tagged = attributes(st.emit(EventView::StartElement(name)).push_tag(name).advance(name_end));
    let close = tagged.advance(skip_space(tagged.input, tagged.pos));
    if close.sees(0, '/') && close.sees(1, '>') {
        close.emit(EventView::EndElement(name)).pop_tag().advance(close.pos + 2)
    } else if close.sees(0, '>') {
        close.advance(close.pos + 1)
    } else {
        close.report(Diagnostic::MalformedStartTag)
    }
}

/// The state after a close tag's name was read: the innermost element is closed if
/// it has that name; otherwise a diagnostic is reported and nothing is closed.
pub open spec fn close_element(st: State, name: Seq<char>) -> State {
    if st.open_tags.len() > 0 && st.open_tags.last() == name {
        st.pop_tag()
    } else {
        st.report(Diagnostic::MismatchedCloseTag)
    }
}

/// An end tag at the cursor, which sees `</`: the name, whitespace, and then `>`
/// (or a diagnostic; the offending symbol is left for the next token).
pub open spec fn end_tag(st: State) -> State {
    let name_end = run_end(st.input, st.pos + 2, is_name_char());
    let name = spelled(st.input, st.pos + 2, name_end);
    let closed = close_element(st.emit(EventView::EndElement(name)), name).advance(
        skip_space(st.input, name_end),
    );
    if closed.sees(0, '>') {
        closed.advance(closed.pos + 1)
    } else {
        closed.report(Diagnostic::MalformedCloseTag)
    }
}

/// A text run at the cursor, up to the next `<` or the end of the input. It is
/// emitted in normalized form unless that is empty.
pub open spec fn text(st: State) -> State {
    let end = run_end(st.input, st.pos, is_text_char());
    let content = normalized(st.input.subrange(st.pos, end));
    if content.len() > 0 {
        st.emit(EventView::TextContent(content)).advance(end)
    } else {
        st.advance(end)
    }
}

/// One token at the cursor: an end tag after `</`, a start tag after any other `<`,
/// text otherwise.
///
/// The three kinds exclude each other: the first that applies is taken, and only
/// that one. What follows a token is looked at afresh, after whitespace was skipped.
pub open spec fn token(st: State) -> State {
    if st.sees(0, '<') && st.sees(1, '/') {
        end_tag(st)
    } else if st.sees(0, '<') {
        start_tag(st)
    } else {
        text(st)
    }
}

/// The attribute list keeps the cursor within the input and never moves it back.
pub proof fn lemma_attributes_bounds(st: State)
    requires
        st.in_bounds(),
    ensures
        attributes(st).in_bounds(),
        attributes(st).pos >= st.pos,
        attributes(st).input == st.input,
    decreases st.input.len() - st.pos,
{
    if more_attributes(st) {
        lemma_attribute_bounds(st);
        lemma_attributes_bounds(attribute(st));
    }
}

/// The attribute list only appends attribute events: it touches neither the open
/// tags nor the diagnostics, and keeps the events it found.
pub proof fn lemma_attributes_frame(st: State)
    requires
        st.in_bounds(),
    ensures
        attributes(st).open_tags == st.open_tags,
        attributes(st).diagnostics == st.diagnostics,
        attributes(st).events.len() >= st.events.len(),
        attributes(st).events.take(st.events.len() as int) == st.events,
        forall|i: int|
            st.events.len() <= i < attributes(st).events.len() ==> #[trigger] attributes(
                st,
            ).events[i] is Attribute,
    decreases st.input.len() - st.pos,
{
    if more_attributes(st) {
        let next = attribute(st);
        lemma_attribute_bounds(st);
        lemma_attribute_frame(st);
        lemma_attributes_frame(next);
        let all = attributes(st).events;
        assert(all.take(st.events.len() as int) =~= all.take(next.events.len() as int).take(
            st.events.len() as int,
        ));
        assert forall|i: int| st.events.len() <= i < all.len() implies #[trigger] all[i] is Attribute by {
            if i == st.events.len() {
                assert(all[i] == all.take(next.events.len() as int)[i]);
            }
        }
    } else {
        assert(st.events.take(st.events.len() as int) =~= st.events);
    }
}

/// Every token consumes at least one symbol and stays within the input.
pub proof fn lemma_token_advances(st: State)
    requires
        0 <= st.pos < st.input.len(),
    ensures
        token(st).in_bounds(),
        token(st).pos > st.pos,
        token(st).input == st.input,
{
    if st.sees(0, '<') && st.sees(1, '/') {
        let name_end = run_end(st.input, st.pos + 2, is_name_char());
        lemma_run_end(st.input, st.pos + 2, is_name_char());
        lemma_run_end(st.input, name_end, is_space());
        assert(token(st) == end_tag(st));
    } else if st.sees(0, '<') {
        let name_end = run_end(st.input, st.pos + 1, is_name_char());
        lemma_run_end(st.input, st.pos + 1, is_name_char());
        let name = spelled(st.input, st.pos + 1, name_end);
        let named = st.emit(EventView::StartElement(name)).push_tag(name).advance(name_end);
        lemma_attributes_bounds(named);
        lemma_run_end(st.input, attributes(named).pos, is_space());
        assert(token(st) == start_tag(st));
    } else {
        lemma_run_end(st.input, st.pos + 1, is_text_char());
        assert(is_text_char()(st.input[st.pos]));
        assert(token(st) == text(st));
    }
}

/// Tokenizing from a state on: whitespace is skipped and one token is taken, until
/// the input is exhausted. Nothing stops a run early: malformed markup only adds
/// diagnostics.
pub open spec fn run(st: State) -> State
    decreases st.input.len() - st.pos,
{
    let here = st.advance(skip_space(st.input, st.pos));
    if 0 <= here.pos < here.input.len() {
        proof {
            lemma_run_end(st.input, st.pos, is_space());
            lemma_token_advances(here);
        }
        run(token(here))
    } else {
        here
    }
}

/// The final state of tokenizing `input` from its beginning.
pub open spec fn tokenize(input: Seq<Symbol>) -> State {
    run(State::start(input))
}

} // verus!
