//! Characters paired with the Unicode classes the tokenizer reads.

use vstd::prelude::*;

verus! {

/// Whether `c` has the Unicode `White_Space` property, as `char::is_whitespace` reports it.
pub uninterp spec fn unicode_whitespace(c: char) -> bool;

/// Whether `c` has the Unicode `Alphabetic` property, as `char::is_alphabetic` reports it.
pub uninterp spec fn unicode_alphabetic(c: char) -> bool;

/// Whether `c` is alphabetic or numeric in Unicode's terms, as `char::is_alphanumeric` reports it.
pub uninterp spec fn unicode_alphanumeric(c: char) -> bool;

/// `char::is_whitespace` looks `c` up in the Unicode tables that std was built with;
/// its answer depends on `c` alone and is given the name `unicode_whitespace(c)`.
pub assume_specification[ char::is_whitespace ](c: char) -> (r: bool)
    ensures
        r == unicode_whitespace(c),
;

/// `char::is_alphabetic` looks `c` up in the Unicode tables that std was built with;
/// its answer depends on `c` alone and is given the name `unicode_alphabetic(c)`.
pub assume_specification[ char::is_alphabetic ](c: char) -> (r: bool)
    ensures
        r == unicode_alphabetic(c),
;

/// `char::is_alphanumeric` looks `c` up in the Unicode tables that std was built with;
/// its answer depends on `c` alone and is given the name `unicode_alphanumeric(c)`.
pub assume_specification[ char::is_alphanumeric ](c: char) -> (r: bool)
    ensures
        r == unicode_alphanumeric(c),
;

/// `String::push` appends the one character `c` to the end of `s`.
pub assume_specification[ String::push ](s: &mut String, c: char)
    ensures
        final(s)@ == old(s)@.push(c),
;

/// A character together with its Unicode classes.
#[derive(Clone, Copy, Debug, PartialEq, Eq)]
pub struct Symbol {
    pub ch: char,
    pub whitespace: bool,
    pub alphabetic: bool,
    pub alphanumeric: bool,
}

/// The symbol that Unicode assigns to `c`.
pub open spec fn symbol_of(c: char) -> Symbol {
    Symbol {
        ch: c,
        whitespace: unicode_whitespace(c),
        alphabetic: unicode_alphabetic(c),
        alphanumeric: unicode_alphanumeric(c),
    }
}

/// The symbols of a text, character by character.
pub open spec fn symbols_of(text: Seq<char>) -> Seq<Symbol> {
    Seq::new(text.len(), |i: int| symbol_of(text[i]))
}

/// The characters of a run of symbols.
pub open spec fn chars_of(run: Seq<Symbol>) -> Seq<char> {
    Seq::new(run.len(), |i: int| run[i].ch)
}

impl Symbol {
    /// Classifies one character.
    pub fn classify(c: char) -> (s: Symbol)
        ensures
            s == symbol_of(c),
    {
        Symbol {
            ch: c,
            whitespace: c.is_whitespace(),
            alphabetic: c.is_alphabetic(),
            alphanumeric: c.is_alphanumeric(),
        }
    }
}

/// Classifies every character of `text`, in order.
pub fn classify_text(text: &str) -> (symbols: Vec<Symbol>)
    ensures
        symbols@ == symbols_of(text@),
{
    let mut symbols: Vec<Symbol> = Vec::new();
    for c in it: text.chars()
        invariant
            it.seq() == text@,
            symbols@ == symbols_of(text@.take(it.index() as int)),
    {
        symbols.push(Symbol::classify(c));
    }
    symbols
}

/// Collects the characters of `symbols[from..to]` into a string.
pub fn spell(symbols: &Vec<Symbol>, from: usize, to: usize) -> (text: String)
    requires
        from <= to <= symbols.len(),
    ensures
        text@ == chars_of(symbols@.subrange(from as int, to as int)),
{
    let mut text = String::new();
    let mut i: usize = from;
    while i < to
        invariant
            from <= i <= to <= symbols.len(),
            text@ == chars_of(symbols@.subrange(from as int, i as int)),
        decreases to - i,
    {
        text.push(symbols[i].ch);
        i += 1;
    }
    text
}

} // verus!
