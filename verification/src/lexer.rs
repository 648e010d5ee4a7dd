//! The executable tokenizer.

use vstd::prelude::*;
use crate::event::{event_views, string_views, Diagnostic, Event};
use crate::laws::lemma_run_preserves;
use crate::model::{
    attribute, attribute_value, attributes, end_tag, is_bare_value_char, is_kept_in_text,
    is_key_char, is_name_char, is_quoted_char, is_space, is_text_char, lemma_attribute_bounds,
    lemma_attribute_progress, lemma_attributes_frame, lemma_run_end,
    lemma_run_end_unique, lemma_token_advances, lemma_trim_end, more_attributes, normalized,
    run, run_end, skip_space, spelled, start_tag, text, trim_start, State,
};
use crate::symbol::{classify_text, spell, symbols_of, Symbol};

verus! {

/// Whether `s` is whitespace.
fn whitespace(s: Symbol) -> (r: bool)
    ensures
        r == is_space()(s),
{
    s.whitespace
}

/// Whether `s` may stand in a tag name.
fn name_char(s: Symbol) -> (r: bool)
    ensures
        r == is_name_char()(s),
{
    s.alphabetic || s.alphanumeric
}

/// Whether `s` may stand in an attribute key.
fn key_char(s: Symbol) -> (r: bool)
    ensures
        r == is_key_char()(s),
{
    s.alphabetic || s.alphanumeric || s.ch == '-' || s.ch == '_'
}

/// Whether `s` may stand in an unquoted attribute value.
fn bare_value_char(s: Symbol) -> (r: bool)
    ensures
        r == is_bare_value_char()(s),
{
    !s.whitespace && s.ch != '>' && s.ch != '/'
}

/// Whether `s` may stand inside a quoted attribute value.
fn quoted_char(s: Symbol) -> (r: bool)
    ensures
        r == is_quoted_char()(s),
{
    s.ch != '"'
}

/// Whether `s` may stand in a text run.
fn text_char(s: Symbol) -> (r: bool)
    ensures
        r == is_text_char()(s),
{
    s.ch != '<'
}

/// The end of the maximal run of symbols accepted by `predict` that starts at `from`.
fn scan<F: Fn(Symbol) -> bool>(
    symbols: &Vec<Symbol>,
    from: usize,
    predict: &F,
    Ghost(class): Ghost<spec_fn(Symbol) -> bool>,
) -> (end: usize)
    requires
        from <= symbols.len(),
        forall|s: Symbol| call_requires(predict, (s,)),
        forall|s: Symbol, r: bool| call_ensures(predict, (s,), r) ==> r == class(s),
    ensures
        from <= end <= symbols.len(),
        end == run_end(symbols@, from as int, class),
{
    let mut end: usize = from;
    loop
        invariant
            from <= end <= symbols.len(),
            forall|s: Symbol| call_requires(predict, (s,)),
            forall|s: Symbol, r: bool| call_ensures(predict, (s,), r) ==> r == class(s),
            forall|i: int| from <= i < end ==> class(#[trigger] symbols@[i]),
        ensures
            from <= end <= symbols.len(),
            forall|i: int| from <= i < end ==> class(#[trigger] symbols@[i]),
            end < symbols.len() ==> !class(symbols@[end as int]),
        decreases symbols.len() - end,
    {
        if end >= symbols.len() {
            break;
        }
        let accepted = predict(symbols[end]);
        if !accepted {
            break;
        }
        end += 1;
    }
    proof {
        lemma_run_end_unique(symbols@, from as int, end as int, class);
    }
    end
}

/// The normalized text of `symbols[from..to]`: newlines and tabs deleted, then
/// whitespace trimmed from both ends.
fn normalize(symbols: &Vec<Symbol>, from: usize, to: usize) -> (text: String)
    requires
        from <= to <= symbols.len(),
    ensures
        text@ == normalized(symbols@.subrange(from as int, to as int)),
{
    let ghost run = symbols@.subrange(from as int, to as int);
    let mut kept: Vec<Symbol> = Vec::new();
    let mut i: usize = from;
    proof {
        reveal(Seq::filter);
        assert(run.take(0).filter(is_kept_in_text()) =~= Seq::<Symbol>::empty());
    }
    while i < to
        invariant
            from <= i <= to <= symbols.len(),
            run == symbols@.subrange(from as int, to as int),
            kept@ == run.take(i - from).filter(is_kept_in_text()),
        decreases to - i,
    {
        let s = symbols[i];
        proof {
            assert(run.take(i - from + 1) =~= run.take(i - from).push(s));
            run.take(i - from).lemma_filter_push(s, is_kept_in_text());
        }
        if s.ch != '\n' && s.ch != '\t' {
            kept.push(s);
        }
        i += 1;
    }
    assert(run.take(to - from) =~= run);
    let lo = scan(&kept, 0, &whitespace, Ghost(is_space()));
    let mut hi: usize = kept.len();
    while hi > lo && kept[hi - 1].whitespace
        invariant
            lo <= hi <= kept.len(),
            forall|j: int| hi <= j < kept.len() ==> (#[trigger] kept@[j]).whitespace,
        decreases hi,
    {
        hi -= 1;
    }
    proof {
        let trimmed = trim_start(kept@);
        assert(trimmed =~= kept@.subrange(lo as int, kept.len() as int));
        lemma_trim_end(trimmed, hi - lo);
        assert(trimmed.take(hi - lo) =~= kept@.subrange(lo as int, hi as int));
    }
    spell(&kept, lo, hi)
}

/// A tokenizer over one input document.
///
/// It holds the classified input with a cursor into it, the stack of open tag
/// names, and the events and diagnostics produced so far.
pub struct Lexer {
    content: Vec<Symbol>,
    pos: usize,
    tag_stack: Vec<String>,
    events: Vec<Event>,
    diagnostics: Vec<Diagnostic>,
}

impl View for Lexer {
    type V = State;

    closed spec fn view(&self) -> State {
        State {
            input: self.content@,
            pos: self.pos as int,
            open_tags: string_views(self.tag_stack@),
            events: event_views(self.events@),
            diagnostics: self.diagnostics@,
        }
    }
}

impl Lexer {
    /// The invariant of a tokenizer: the cursor never leaves the input, which is
    /// short enough to be indexed.
    pub open spec fn wf(&self) -> bool {
        self@.in_bounds() && self@.input.len() <= usize::MAX
    }

    /// A tokenizer at the beginning of `content`, each character classified by Unicode.
    pub fn new(content: String) -> (lexer: Lexer)
        ensures
            lexer.wf(),
            lexer@ == State::start(symbols_of(content@)),
    {
        Lexer::from_symbols(classify_text(content.as_str()))
    }

    /// A tokenizer at the beginning of `symbols`, whose classes are taken as given.
    pub fn from_symbols(symbols: Vec<Symbol>) -> (lexer: Lexer)
        ensures
            lexer.wf(),
            lexer@ == State::start(symbols@),
    {
        let lexer = Lexer {
            content: symbols,
            pos: 0,
            tag_stack: Vec::new(),
            events: Vec::new(),
            diagnostics: Vec::new(),
        };
        assert(lexer@.open_tags =~= Seq::empty());
        assert(lexer@.events =~= Seq::empty());
        assert(lexer@.input.len() == lexer.content.len());
        lexer
    }

    /// The events produced so far, in order.
    pub fn events(&self) -> (events: &[Event])
        ensures
            event_views(events@) == self@.events,
    {
        self.events.as_slice()
    }

    /// The diagnostics reported so far, in order.
    pub fn diagnostics(&self) -> (diagnostics: &[Diagnostic])
        ensures
            diagnostics@ == self@.diagnostics,
    {
        self.diagnostics.as_slice()
    }

    /// The names of the elements that are open, innermost last.
    pub fn open_tags(&self) -> (names: &[String])
        ensures
            string_views(names@) == self@.open_tags,
    {
        self.tag_stack.as_slice()
    }

    /// How many symbols of the input are still to be consumed.
    pub fn remaining(&self) -> (n: usize)
        requires
            self.wf(),
        ensures
            n == self@.input.len() - self@.pos,
    {
        self.content.len() - self.pos
    }

    /// Takes `content[pos + from .. pos + to]` as a string and moves the cursor to
    /// `pos + to`: everything before that point, the skipped `from` symbols
    /// included, is consumed.
    fn get_slice(&mut self, from: usize, to: usize) -> (taken: String)
        requires
            old(self).wf(),
            from <= to,
            old(self)@.pos + to <= old(self)@.input.len(),
        ensures
            taken@ == spelled(old(self)@.input, old(self)@.pos + from, old(self)@.pos + to),
            final(self).wf(),
            final(self)@ == old(self)@.advance(old(self)@.pos + to),
    {
        let taken = spell(&self.content, self.pos + from, self.pos + to);
        self.pos = self.pos + to;
        taken
    }

    /// Takes the maximal run of symbols accepted by `predict` that starts `start`
    /// symbols after the cursor, and consumes everything up to its end.
    fn take_while_from<F: Fn(Symbol) -> bool>(
        &mut self,
        start: usize,
        predict: F,
        Ghost(class): Ghost<spec_fn(Symbol) -> bool>,
    ) -> (taken: String)
        requires
            old(self).wf(),
            old(self)@.pos + start <= old(self)@.input.len(),
            forall|s: Symbol| call_requires(predict, (s,)),
            forall|s: Symbol, r: bool| call_ensures(predict, (s,), r) ==> r == class(s),
        ensures
            final(self)@ == old(self)@.advance(
                run_end(old(self)@.input, old(self)@.pos + start, class),
            ),
            taken@ == spelled(
                old(self)@.input,
                old(self)@.pos + start,
                run_end(old(self)@.input, old(self)@.pos + start, class),
            ),
            final(self).wf(),
            final(self)@.pos >= old(self)@.pos + start,
    {
        let end = scan(&self.content, self.pos + start, &predict, Ghost(class));
        self.get_slice(start, end - self.pos)
    }

    /// Takes the maximal run of symbols accepted by `predict` at the cursor.
    fn take_while<F: Fn(Symbol) -> bool>(
        &mut self,
        predict: F,
        Ghost(class): Ghost<spec_fn(Symbol) -> bool>,
    ) -> (taken: String)
        requires
            old(self).wf(),
            forall|s: Symbol| call_requires(predict, (s,)),
            forall|s: Symbol, r: bool| call_ensures(predict, (s,), r) ==> r == class(s),
        ensures
            final(self)@ == old(self)@.advance(run_end(old(self)@.input, old(self)@.pos, class)),
            taken@ == spelled(
                old(self)@.input,
                old(self)@.pos,
                run_end(old(self)@.input, old(self)@.pos, class),
            ),
            final(self).wf(),
            final(self)@.pos >= old(self)@.pos,
    {
        self.take_while_from(0, predict, Ghost(class))
    }

    /// Consumes the whitespace at the cursor.
    fn take_whitespaces(&mut self)
        requires
            old(self).wf(),
        ensures
            final(self)@ == old(self)@.advance(
                skip_space(old(self)@.input, old(self)@.pos),
            ),
            final(self).wf(),
            final(self)@.pos >= old(self)@.pos,
    {
        let _ = self.take_while(whitespace, Ghost(is_space()));
    }

    /// Appends `event` to the events.
    fn emit(&mut self, event: Event)
        ensures
            final(self)@ == old(self)@.emit(event@),
            old(self).wf() ==> final(self).wf(),
    {
        let ghost view = event@;
        self.events.push(event);
        assert(event_views(self.events@) =~= event_views(old(self).events@).push(view));
    }

    /// Appends `diagnostic` to the diagnostics.
    fn report(&mut self, diagnostic: Diagnostic)
        ensures
            final(self)@ == old(self)@.report(diagnostic),
            old(self).wf() ==> final(self).wf(),
    {
        self.diagnostics.push(diagnostic);
    }

    /// Whether the symbol `offset` places after the cursor exists and is `c`.
    fn sees(&self, offset: usize, c: char) -> (r: bool)
        requires
            self.wf(),
        ensures
            r == self@.sees(offset as int, c),
    {
        offset < self.content.len() - self.pos && self.content[self.pos + offset].ch == c
    }

    /// Takes the tag name that starts `start` symbols after the cursor.
    fn take_tag_name(&mut self, start: usize) -> (name: String)
        requires
            old(self).wf(),
            old(self)@.pos + start <= old(self)@.input.len(),
        ensures
            final(self)@ == old(self)@.advance(
                run_end(old(self)@.input, old(self)@.pos + start, is_name_char()),
            ),
            name@ == spelled(
                old(self)@.input,
                old(self)@.pos + start,
                run_end(old(self)@.input, old(self)@.pos + start, is_name_char()),
            ),
            final(self).wf(),
    {
        self.take_while_from(start, name_char, Ghost(is_name_char()))
    }

    /// Takes the end tag at the cursor: `</`, a name, whitespace, `>`.
    ///
    /// The innermost open element is closed if it has that name; a mismatch is
    /// reported and closes nothing. A missing `>` is reported and nothing more is consumed.
    fn take_end_element(&mut self)
        requires
            old(self).wf(),
            old(self)@.sees(0, '<'),
            old(self)@.sees(1, '/'),
        ensures
            final(self).wf(),
            final(self)@ == end_tag(old(self)@),
    {
        let tag_name = self.take_tag_name(2);
        self.emit(Event::EndElement(tag_name.clone()));
        let open: usize = self.tag_stack.len();
        if open > 0 && self.tag_stack[open - 1] == tag_name {
            let ghost before = self.tag_stack@;
            self.tag_stack.pop();
            assert(string_views(self.tag_stack@) =~= string_views(before).drop_last());
        } else {
            self.report(Diagnostic::MismatchedCloseTag);
        }
        self.take_whitespaces();
        if self.sees(0, '>') {
            let _ = self.get_slice(0, 1);
        } else {
            self.report(Diagnostic::MalformedCloseTag);
        }
    }

    /// Takes the text at the cursor, up to the next `<` or the end of the input,
    /// and emits it in normalized form unless that is empty.
    fn take_text_content(&mut self)
        requires
            old(self).wf(),
        ensures
            final(self).wf(),
            final(self)@ == text(old(self)@),
    {
        let start: usize = self.pos;
        let end = scan(&self.content, start, &text_char, Ghost(is_text_char()));
        let value = normalize(&self.content, start, end);
        self.pos = end;
        if value.as_str().is_empty() {
            return ;
        }
        self.emit(Event::TextContent(value));
    }

    /// Takes the value of the attribute whose key ends at the cursor.
    ///
    /// Without `=` the value is empty and nothing is consumed. After `="` the value
    /// runs to the closing `"`, which is consumed with it. Otherwise the value
    /// runs to the first whitespace, `>` or `/`.
    fn take_attribute_value(&mut self) -> (value: String)
        requires
            old(self).wf(),
        ensures
            final(self).wf(),
            value@ == attribute_value(old(self)@.input, old(self)@.pos).0,
            final(self)@ == old(self)@.advance(
                attribute_value(old(self)@.input, old(self)@.pos).1,
            ),
    {
        if !self.sees(0, '=') {
            return String::new();
        }
        if self.sees(1, '"') {
            proof {
                lemma_run_end(self@.input, self@.pos + 2, is_quoted_char());
            }
            let value = self.take_while_from(2, quoted_char, Ghost(is_quoted_char()));
            if self.sees(0, '"') {
                let _ = self.get_slice(0, 1);
            }
            value
        } else {
            self.take_while_from(1, bare_value_char, Ghost(is_bare_value_char()))
        }
    }

    /// Takes one attribute: whitespace, `KEY=VALUE` or `KEY`, whitespace; and emits it.
    fn take_attribute(&mut self)
        requires
            old(self).wf(),
        ensures
            final(self).wf(),
            final(self)@ == attribute(old(self)@),
    {
        self.take_whitespaces();
        let key = self.take_while(key_char, Ghost(is_key_char()));
        let value = self.take_attribute_value();
        self.emit(Event::Attribute(key, value));
        self.take_whitespaces();
    }

    /// Whether another attribute is to be read at the cursor.
    fn starts_attribute(&self) -> (r: bool)
        requires
            self.wf(),
        ensures
            r == more_attributes(self@),
    {
        if self.pos >= self.content.len() {
            return false;
        }
        proof {
            lemma_attribute_progress(self@);
        }
        let here = self.content[self.pos];
        here.ch != '>' && here.ch != '/' && (here.whitespace || key_char(here) || here.ch == '=')
    }

    /// Takes the attributes of a start tag, up to `>`, `/`, the end of the input or
    /// a symbol that no attribute can begin with.
    fn take_attributes(&mut self)
        requires
            old(self).wf(),
        ensures
            final(self).wf(),
            final(self)@ == attributes(old(self)@),
    {
        while self.starts_attribute()
            invariant
                self.wf(),
                attributes(self@) == attributes(old(self)@),
            decreases self@.input.len() - self@.pos,
        {
            proof {
                lemma_attribute_bounds(self@);
            }
            self.take_attribute();
        }
    }

    /// Takes the start tag at the cursor: `<`, a name, attributes, and `>` or `/>`.
    ///
    /// The element is opened; `/>` closes it again at once. If neither `>` nor `/>`
    /// follows, that is reported and nothing more is consumed.
    fn take_start_element(&mut self)
        requires
            old(self).wf(),
            old(self)@.sees(0, '<'),
        ensures
            final(self).wf(),
            final(self)@ == start_tag(old(self)@),
    {
        let tag_name = self.take_tag_name(1);
        self.emit(Event::StartElement(tag_name.clone()));
        let ghost before = self.tag_stack@;
        let ghost name = tag_name@;
        self.tag_stack.push(tag_name);
        assert(string_views(self.tag_stack@) =~= string_views(before).push(name));
        proof {
            lemma_attributes_frame(self@);
        }
        self.take_attributes();
        self.take_whitespaces();
        if self.sees(0, '/') && self.sees(1, '>') {
            let _ = self.get_slice(0, 2);
            let ghost open = self.tag_stack@;
            match self.tag_stack.pop() {
                Some(last_tag) => {
                    assert(string_views(self.tag_stack@) =~= string_views(open).drop_last());
                    assert(last_tag@ == string_views(open).last());
                    self.emit(Event::EndElement(last_tag));
                },
                None => {
                    // Out of reach: the element was opened a few lines above.
                    self.report(Diagnostic::OrphanSelfClose);
                },
            }
        } else if self.sees(0, '>') {
            let _ = self.get_slice(0, 1);
        } else {
            self.report(Diagnostic::MalformedStartTag);
        }
    }

    /// Tokenizes what is left of the input and returns all events produced so far.
    ///
    /// Whitespace is skipped and one token is taken (an end tag after `</`, a start
    /// tag after any other `<`, text otherwise) until the input is exhausted.
    /// Malformed markup is reported as a diagnostic and never stops the run.
    pub fn parse(&mut self) -> (events: &[Event])
        requires
            old(self).wf(),
        ensures
            final(self).wf(),
            final(self)@ == run(old(self)@),
            event_views(events@) == final(self)@.events,
            final(self)@.input == old(self)@.input,
            final(self)@.pos == final(self)@.input.len(),
            old(self)@.events.is_prefix_of(final(self)@.events),
            old(self)@.diagnostics.is_prefix_of(final(self)@.diagnostics),
    {
        proof {
            lemma_run_preserves(self@);
        }
        while self.pos < self.content.len()
            invariant
                self.wf(),
                run(self@) == run(old(self)@),
            ensures
                self@.pos == self@.input.len(),
            decreases self@.input.len() - self@.pos,
        {
            proof {
                lemma_run_end(self@.input, self@.pos, is_space());
            }
            self.take_whitespaces();
            if self.pos >= self.content.len() {
                break;
            }
            proof {
                lemma_token_advances(self@);
            }
            if self.sees(0, '<') && self.sees(1, '/') {
                self.take_end_element();
            } else if self.sees(0, '<') {
                self.take_start_element();
            } else {
                self.take_text_content();
            }
        }
        self.events.as_slice()
    }
}

} // verus!
