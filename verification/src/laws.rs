//! What holds of every tokenization, proved from the model.

use vstd::prelude::*;
use crate::event::{Diagnostic, EventView};
use crate::lexer::Lexer;
use crate::model::{
    attributes, end_tag, is_kept_in_text, is_name_char, is_space, lemma_attributes_bounds,
    lemma_attributes_frame, lemma_run_end, lemma_token_advances, normalized, run, run_end,
    skip_space, spelled, start_tag, text, token, tokenize, trim_end, trim_start, State,
};
use crate::symbol::{symbols_of, Symbol};

verus! {

/// Every attribute event stands directly behind a start-element event or behind
/// another attribute: attributes follow the start tag they belong to, and nothing
/// comes between.
pub open spec fn attributes_attached(events: Seq<EventView>) -> bool {
    forall|i: int|
        0 <= i < events.len() && #[trigger] events[i] is Attribute ==> i > 0 && (events[i
            - 1] is StartElement || events[i - 1] is Attribute)
}

/// Every text event is non-empty and holds neither a newline nor a tab.
pub open spec fn texts_normalized(events: Seq<EventView>) -> bool {
    forall|i: int|
        0 <= i < events.len() ==> (#[trigger] events[i] matches EventView::TextContent(content)
            ==> content.len() > 0 && !content.contains('\n') && !content.contains('\t'))
}

/// No diagnostic is `OrphanSelfClose`.
pub open spec fn no_orphan_self_close(diagnostics: Seq<Diagnostic>) -> bool {
    forall|i: int| 0 <= i < diagnostics.len() ==> #[trigger] diagnostics[i] != Diagnostic::OrphanSelfClose
}

/// Tokenizing is a function of the input: two tokenizers that began on the same
/// input and have both run to the end hold the same events, character for
/// character, the same diagnostics and the same open tags.
pub proof fn lemma_parse_deterministic(input: Seq<Symbol>, first: Lexer, second: Lexer)
    requires
        first@ == run(State::start(input)),
        second@ == run(State::start(input)),
    ensures
        first@.events == second@.events,
        first@.diagnostics == second@.diagnostics,
        first@.open_tags == second@.open_tags,
{
}

/// Trimming the end of a run leaves a prefix of it that does not end in whitespace.
pub proof fn lemma_trim_end_prefix(run: Seq<Symbol>)
    ensures
        trim_end(run).len() <= run.len(),
        trim_end(run) == run.take(trim_end(run).len() as int),
        trim_end(run).len() > 0 ==> !trim_end(run).last().whitespace,
    decreases run.len(),
{
    if run.len() > 0 && run.last().whitespace {
        lemma_trim_end_prefix(run.drop_last());
        assert(run.drop_last().take(trim_end(run).len() as int) =~= run.take(
            trim_end(run).len() as int,
        ));
    } else {
        assert(run.take(run.len() as int) =~= run);
    }
}

/// Normalized text holds neither a newline nor a tab, is no longer than the raw
/// run, and neither begins nor ends with whitespace.
pub proof fn lemma_normalized(raw: Seq<Symbol>)
    ensures
        !normalized(raw).contains('\n'),
        !normalized(raw).contains('\t'),
        normalized(raw).len() <= raw.len(),
        ({
            let kept = trim_end(trim_start(raw.filter(is_kept_in_text())));
            kept.len() > 0 ==> !kept.first().whitespace && !kept.last().whitespace
        }),
{
    let filtered = raw.filter(is_kept_in_text());
    let front = trim_start(filtered);
    let kept = trim_end(front);
    raw.lemma_filter_len(is_kept_in_text());
    lemma_run_end(filtered, 0, is_space());
    lemma_trim_end_prefix(front);
    assert forall|i: int| 0 <= i < kept.len() implies is_kept_in_text()(#[trigger] kept[i]) by {
        let j = i + skip_space(filtered, 0);
        assert(kept[i] == filtered[j]);
        raw.lemma_filter_pred(is_kept_in_text(), j);
    }
    assert forall|i: int| 0 <= i < normalized(raw).len() implies #[trigger] normalized(raw)[i]
        != '\n' && normalized(raw)[i] != '\t' by {
        assert(is_kept_in_text()(kept[i]));
    }
    if kept.len() > 0 {
        assert(kept.first() == filtered[skip_space(filtered, 0)]);
    }
}

/// What one token does besides moving the cursor forward: the input stays,
/// events and diagnostics are only appended to, and what is appended is well
/// formed.
pub proof fn lemma_token_preserves(st: State)
    requires
        0 <= st.pos < st.input.len(),
    ensures
        token(st).input == st.input,
        st.events.is_prefix_of(token(st).events),
        st.diagnostics.is_prefix_of(token(st).diagnostics),
        attributes_attached(st.events) ==> attributes_attached(token(st).events),
        texts_normalized(st.events) ==> texts_normalized(token(st).events),
        no_orphan_self_close(st.diagnostics) ==> no_orphan_self_close(token(st).diagnostics),
{
    lemma_token_advances(st);
    if st.sees(0, '<') && st.sees(1, '/') {
        assert(token(st) == end_tag(st));
    } else if st.sees(0, '<') {
        let name_end = run_end(st.input, st.pos + 1, is_name_char());
        let name = spelled(st.input, st.pos + 1, name_end);
        let named = st.emit(EventView::StartElement(name)).push_tag(name).advance(name_end);
        lemma_run_end(st.input, st.pos + 1, is_name_char());
        lemma_attributes_bounds(named);
        lemma_attributes_frame(named);
        let tagged = attributes(named);
        let after = start_tag(st).events;
        assert(token(st) == start_tag(st));
        assert(tagged.events.take(named.events.len() as int) == named.events);
        assert forall|i: int| 0 <= i < named.events.len() implies after[i] == named.events[i] by {
            assert(tagged.events.take(named.events.len() as int)[i] == tagged.events[i]);
        }
        assert(after[st.events.len() as int] is StartElement);
        assert forall|i: int| st.events.len() < i < after.len() implies #[trigger] after[i] is Attribute
            || after[i] is EndElement by {
            if i < tagged.events.len() {
                assert(tagged.events[i] is Attribute);
            }
        }
        assert forall|i: int| st.events.len() < i < after.len() implies after[i - 1] is StartElement
            || #[trigger] after[i - 1] is Attribute by {
            if i - 1 > st.events.len() {
                assert(tagged.events[i - 1] is Attribute);
            }
        }
    } else {
        let end = run_end(st.input, st.pos, crate::model::is_text_char());
        lemma_normalized(st.input.subrange(st.pos, end));
        assert(token(st) == text(st));
    }
}

/// What tokenizing to the end does: the whole input is consumed and never
/// changed, events and diagnostics are only appended to, and what is appended is
/// well formed.
pub proof fn lemma_run_preserves(st: State)
    requires
        st.in_bounds(),
    ensures
        run(st).pos == st.input.len(),
        run(st).input == st.input,
        st.events.is_prefix_of(run(st).events),
        st.diagnostics.is_prefix_of(run(st).diagnostics),
        attributes_attached(st.events) ==> attributes_attached(run(st).events),
        texts_normalized(st.events) ==> texts_normalized(run(st).events),
        no_orphan_self_close(st.diagnostics) ==> no_orphan_self_close(run(st).diagnostics),
    decreases st.input.len() - st.pos,
{
    lemma_run_end(st.input, st.pos, is_space());
    let here = st.advance(skip_space(st.input, st.pos));
    if here.pos < here.input.len() {
        lemma_token_advances(here);
        lemma_token_preserves(here);
        lemma_run_preserves(token(here));
    }
}

/// The events of a whole document are well formed: every attribute follows its
/// start tag, every text is non-empty and normalized, and no `OrphanSelfClose`
/// is ever reported.
pub proof fn lemma_tokenize_well_formed(input: Seq<Symbol>)
    ensures
        tokenize(input).pos == input.len(),
        attributes_attached(tokenize(input).events),
        texts_normalized(tokenize(input).events),
        no_orphan_self_close(tokenize(input).diagnostics),
{
    lemma_run_preserves(State::start(input));
}

/// The same text gives the same symbols, and so the same events, diagnostics and
/// open tags, however often it is tokenized.
pub proof fn lemma_tokenize_text_deterministic(first: Seq<char>, second: Seq<char>)
    requires
        first == second,
    ensures
        tokenize(symbols_of(first)) == tokenize(symbols_of(second)),
{
}

/// Empty input gives no event, no diagnostic and no open tag.
pub proof fn lemma_tokenize_empty()
    ensures
        tokenize(Seq::empty()) == State::start(Seq::empty()),
{
}

/// A start tag opens one element at most: afterwards the open tags are as
/// before, with the tag's name pushed unless the tag closed itself with `/>`, in
/// which case the last event is the matching end of the element.
pub proof fn lemma_start_tag_stack(st: State)
    requires
        st.in_bounds(),
        st.sees(0, '<'),
    ensures
        ({
            let name = spelled(
                st.input,
                st.pos + 1,
                run_end(st.input, st.pos + 1, is_name_char()),
            );
            let after = start_tag(st);
            ||| after.open_tags == st.open_tags.push(name)
            ||| after.open_tags == st.open_tags && after.events.len() > 0 && after.events.last()
                == EventView::EndElement(name)
        }),
{
    let name_end = run_end(st.input, st.pos + 1, is_name_char());
    let name = spelled(st.input, st.pos + 1, name_end);
    let named = st.emit(EventView::StartElement(name)).push_tag(name).advance(name_end);
    lemma_run_end(st.input, st.pos + 1, is_name_char());
    lemma_attributes_frame(named);
    assert(st.open_tags.push(name).drop_last() =~= st.open_tags);
}

/// An end tag closes one element at most: afterwards the open tags are as
/// before, or as before without the innermost, which then had the tag's name.
pub proof fn lemma_end_tag_stack(st: State)
    ensures
        ({
            let name = spelled(
                st.input,
                st.pos + 2,
                run_end(st.input, st.pos + 2, is_name_char()),
            );
            let after = end_tag(st);
            ||| after.open_tags == st.open_tags
            ||| st.open_tags.len() > 0 && st.open_tags.last() == name && after.open_tags
                == st.open_tags.drop_last()
        }),
{
}

} // verus!
