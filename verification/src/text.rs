//! Characters and character runs: the classes the parsers test for, and the
//! cursor that walks an input buffer one character at a time.

use itertools::Itertools;
use vstd::prelude::*;
use vstd::std_specs::iter::IteratorSpec;
use crate::error::ErrorKind;
use crate::error::Expected;
use crate::error::Found;
use crate::error::ParseError;
use crate::error::lexical;
use crate::error::structural;

verus! {

/// Whether a character beyond ASCII has the Unicode `White_Space`
/// property.
pub uninterp spec fn wide_white_space(c: char) -> bool;

/// Whether a character beyond ASCII is alphabetic or numeric in the
/// Unicode sense.
pub uninterp spec fn wide_alpha_numeric(c: char) -> bool;

/// Whether `c` is whitespace. Of the ASCII characters the space is, and
/// the five from the tab to the carriage return; beyond ASCII the Unicode
/// property `White_Space` decides.
pub open spec fn is_white_space(c: char) -> bool {
    if c <= '\u{7f}' {
        c == ' ' || '\u{9}' <= c <= '\u{d}'
    } else {
        wide_white_space(c)
    }
}

/// Whether `c` is a letter or a digit. Of the ASCII characters the
/// letters and the digits are; beyond ASCII the Unicode database decides.
pub open spec fn is_alpha_numeric(c: char) -> bool {
    if c <= '\u{7f}' {
        is_ascii_alnum(c)
    } else {
        wide_alpha_numeric(c)
    }
}

/// `char::is_whitespace` decides the `White_Space` property of its
/// argument. Among the ASCII characters these are the space and the
/// characters from U+0009 to U+000D. The rest of the property is a table
/// of the Unicode database; it is not written out here, only named by
/// [`wide_white_space`].
pub assume_specification[ char::is_whitespace ](c: char) -> (b: bool)
    ensures
        c <= '\u{7f}' ==> b == (c == ' ' || '\u{9}' <= c <= '\u{d}'),
        c > '\u{7f}' ==> b == wide_white_space(c),
;

/// `char::is_alphanumeric` decides whether its argument is alphabetic or
/// numeric according to the Unicode database. Among the ASCII characters
/// these are the letters and the digits; the rest of the table is named by
/// [`wide_alpha_numeric`].
pub assume_specification[ char::is_alphanumeric ](c: char) -> (b: bool)
    ensures
        c <= '\u{7f}' ==> b == is_ascii_alnum(c),
        c > '\u{7f}' ==> b == wide_alpha_numeric(c),
;

/// `String::push` appends one character to the end of the string.
pub assume_specification[ String::push ](s: &mut String, c: char)
    ensures
        final(s)@ == old(s)@.push(c),
;

/// An ASCII decimal digit.
pub open spec fn is_digit(c: char) -> bool {
    '0' <= c <= '9'
}

/// An ASCII letter.
pub open spec fn is_ascii_letter(c: char) -> bool {
    ('a' <= c <= 'z') || ('A' <= c <= 'Z')
}

/// An ASCII letter or digit.
pub open spec fn is_ascii_alnum(c: char) -> bool {
    is_digit(c) || is_ascii_letter(c)
}

/// A character of an identifier: an ASCII letter or digit, `_` or `-`.
pub open spec fn is_ident_char(c: char) -> bool {
    is_ascii_alnum(c) || c == '_' || c == '-'
}

/// A hexadecimal digit, in either case.
pub open spec fn is_hex_digit(c: char) -> bool {
    is_digit(c) || ('a' <= c <= 'f') || ('A' <= c <= 'F')
}

/// A character of a decimal number: a digit or the point.
pub open spec fn is_number_char(c: char) -> bool {
    is_digit(c) || c == '.'
}

/// The character of `s` at `p`, if `p` is inside `s`.
pub open spec fn char_at(s: Seq<char>, p: int) -> Option<char> {
    if 0 <= p < s.len() {
        Some(s[p])
    } else {
        None
    }
}

/// The end of the longest run of characters of `s` that starts at `p` and
/// in which every character satisfies `accept`.
pub open spec fn run_end(s: Seq<char>, p: int, accept: spec_fn(char) -> bool) -> int
    decreases s.len() - p,
{
    if 0 <= p < s.len() && accept(s[p]) {
        run_end(s, p + 1, accept)
    } else {
        p
    }
}

/// As [`run_end`], but the run holds at most `limit` characters.
pub open spec fn bounded_run_end(
    s: Seq<char>,
    p: int,
    accept: spec_fn(char) -> bool,
    limit: nat,
) -> int
    decreases limit,
{
    if limit > 0 && 0 <= p < s.len() && accept(s[p]) {
        bounded_run_end(s, p + 1, accept, (limit - 1) as nat)
    } else {
        p
    }
}

/// The first position at or after `p` that holds no whitespace.
pub open spec fn ws_end(s: Seq<char>, p: int) -> int {
    run_end(s, p, |c: char| is_white_space(c))
}

/// The end of the identifier that starts at `p`.
pub open spec fn ident_end(s: Seq<char>, p: int) -> int {
    run_end(s, p, |c: char| is_ident_char(c))
}

/// The end of the run of number characters that starts at `p`.
pub open spec fn number_end(s: Seq<char>, p: int) -> int {
    run_end(s, p, |c: char| is_number_char(c))
}

/// The end of the run of at most `limit` hexadecimal digits that starts at `p`.
pub open spec fn hex_end(s: Seq<char>, p: int, limit: nat) -> int {
    bounded_run_end(s, p, |c: char| is_hex_digit(c), limit)
}

/// The end of the run of characters other than `stop` that starts at `p`.
pub open spec fn until_end(s: Seq<char>, p: int, stop: char) -> int {
    run_end(s, p, other_than(stop))
}

/// The class of the characters other than `stop`.
pub open spec fn other_than(stop: char) -> spec_fn(char) -> bool {
    |c: char| c != stop
}

/// The class of the characters of a text run: all but `<` and `>`.
pub open spec fn is_text_char(c: char) -> bool {
    c != '<' && c != '>'
}

/// A run ends inside the text, at or after its start.
pub proof fn lemma_run_end_bounds(s: Seq<char>, p: int, accept: spec_fn(char) -> bool)
    ensures
        p <= run_end(s, p, accept),
        p <= s.len() ==> run_end(s, p, accept) <= s.len(),
    decreases s.len() - p,
{
    if 0 <= p < s.len() && accept(s[p]) {
        lemma_run_end_bounds(s, p + 1, accept);
    }
}

/// A run that starts at an accepted character holds it.
pub proof fn lemma_run_end_step(s: Seq<char>, p: int, accept: spec_fn(char) -> bool)
    requires
        0 <= p < s.len(),
        accept(s[p]),
    ensures
        run_end(s, p, accept) == run_end(s, p + 1, accept),
        p < run_end(s, p, accept) <= s.len(),
{
    lemma_run_end_bounds(s, p + 1, accept);
}

/// Every character of a run is accepted, and the character after it, if
/// there is one, is not.
pub proof fn lemma_run_end_accepts(s: Seq<char>, p: int, accept: spec_fn(char) -> bool)
    requires
        0 <= p <= s.len(),
    ensures
        forall|i: int| p <= i < run_end(s, p, accept) ==> accept(#[trigger] s[i]),
        run_end(s, p, accept) < s.len() ==> !accept(s[run_end(s, p, accept)]),
    decreases s.len() - p,
{
    if p < s.len() && accept(s[p]) {
        lemma_run_end_accepts(s, p + 1, accept);
    }
}

/// A position `e` at which a run of accepted characters from `p` stops is the
/// end of the run.
pub proof fn lemma_run_end_is(s: Seq<char>, p: int, e: int, accept: spec_fn(char) -> bool)
    requires
        0 <= p <= e <= s.len(),
        forall|i: int| p <= i < e ==> accept(#[trigger] s[i]),
        e < s.len() ==> !accept(s[e]),
    ensures
        run_end(s, p, accept) == e,
    decreases e - p,
{
    if p < e {
        lemma_run_end_is(s, p + 1, e, accept);
    }
}

/// A bounded run ends inside the text, at most `limit` characters after its
/// start.
pub proof fn lemma_bounded_run_end_bounds(
    s: Seq<char>,
    p: int,
    accept: spec_fn(char) -> bool,
    limit: nat,
)
    ensures
        p <= bounded_run_end(s, p, accept, limit) <= p + limit,
        p <= s.len() ==> bounded_run_end(s, p, accept, limit) <= s.len(),
    decreases limit,
{
    if limit > 0 && 0 <= p < s.len() && accept(s[p]) {
        lemma_bounded_run_end_bounds(s, p + 1, accept, (limit - 1) as nat);
    }
}

/// A position `e` at which a run of accepted characters from `p` stops, or
/// reaches `limit` characters, is the end of the bounded run.
pub proof fn lemma_bounded_run_end_is(
    s: Seq<char>,
    p: int,
    e: int,
    accept: spec_fn(char) -> bool,
    limit: nat,
)
    requires
        0 <= p <= e <= s.len(),
        e - p <= limit,
        forall|i: int| p <= i < e ==> accept(#[trigger] s[i]),
        e - p < limit && e < s.len() ==> !accept(s[e]),
    ensures
        bounded_run_end(s, p, accept, limit) == e,
    decreases e - p,
{
    if p < e {
        lemma_bounded_run_end_is(s, p + 1, e, accept, (limit - 1) as nat);
    }
}

/// The whitespace before `p` ends at or after `p`, inside the text where
/// `p` is; a second skip from there moves no further, and what stands there
/// is no whitespace.
pub proof fn lemma_ws_end(s: Seq<char>, p: int)
    ensures
        p <= ws_end(s, p),
        p <= s.len() ==> ws_end(s, p) <= s.len(),
        ws_end(s, ws_end(s, p)) == ws_end(s, p),
        0 <= ws_end(s, p) < s.len() ==> !is_white_space(s[ws_end(s, p)]),
{
    let accept = |c: char| is_white_space(c);
    lemma_run_end_bounds(s, p, accept);
    if 0 <= p <= s.len() {
        lemma_run_end_accepts(s, p, accept);
    }
}

/// The identifier at `p`, which may be empty, and the position after it
/// and the whitespace that follows it.
pub open spec fn ident_at(s: Seq<char>, p: int) -> (Seq<char>, int) {
    let a = ws_end(s, p);
    let e = ident_end(s, a);
    (s.subrange(a, e), ws_end(s, e))
}

/// An identifier ends inside the text, at or after its start.
pub proof fn lemma_ident_advances(s: Seq<char>, p: int)
    ensures
        p <= ident_at(s, p).1,
        p <= s.len() ==> ident_at(s, p).1 <= s.len(),
        0 <= ws_end(s, p) < s.len() && is_ident_char(s[ws_end(s, p)]) ==> p < ident_at(s, p).1,
{
    let a = ws_end(s, p);
    let e = ident_end(s, a);
    lemma_run_end_bounds(s, p, |c: char| is_white_space(c));
    lemma_run_end_bounds(s, a, |c: char| is_ident_char(c));
    lemma_run_end_bounds(s, e, |c: char| is_white_space(c));
    if 0 <= a < s.len() && is_ident_char(s[a]) {
        lemma_run_end_step(s, a, |c: char| is_ident_char(c));
    }
}

/// The end of the run of characters other than `<` and `>` that starts at
/// `p`.
pub open spec fn text_end(s: Seq<char>, p: int) -> int {
    run_end(s, p, |c: char| is_text_char(c))
}

/// The run of characters other than `stop` at `p`, with the whitespace
/// before it skipped, and the position after it and the whitespace that
/// follows it.
pub open spec fn until_at(s: Seq<char>, p: int, stop: char) -> (Seq<char>, int) {
    let a = ws_end(s, p);
    let e = until_end(s, a, stop);
    (s.subrange(a, e), ws_end(s, e))
}

/// A run of characters other than `stop` ends inside the text, at or after
/// its start.
pub proof fn lemma_until_advances(s: Seq<char>, p: int, stop: char)
    ensures
        p <= until_at(s, p, stop).1,
        p <= s.len() ==> until_at(s, p, stop).1 <= s.len(),
{
    let a = ws_end(s, p);
    let e = until_end(s, a, stop);
    lemma_run_end_bounds(s, p, |c: char| is_white_space(c));
    lemma_run_end_bounds(s, a, other_than(stop));
    lemma_run_end_bounds(s, e, |c: char| is_white_space(c));
}

/// `n` spaces.
pub open spec fn spaces(n: nat) -> Seq<char> {
    Seq::new(n, |i: int| ' ')
}

/// The characters of a string slice, in order.
pub fn chars_of(s: &str) -> (v: Vec<char>)
    ensures
        v@ == s@,
{
    let mut v: Vec<char> = Vec::new();
    for c in it: s.chars()
        invariant
            v@ == it.seq().take(it.index() as int),
            it.seq() == s@,
    {
        v.push(c);
    }
    v
}

/// Whether two character vectors hold the same characters.
pub fn same_chars(a: &Vec<char>, b: &Vec<char>) -> (r: bool)
    ensures
        r == (a@ == b@),
{
    if a.len() != b.len() {
        return false;
    }
    let mut i: usize = 0;
    while i < a.len()
        invariant
            a.len() == b.len(),
            i <= a.len(),
            forall|j: int| 0 <= j < i ==> a@[j] == b@[j],
        decreases a.len() - i,
    {
        if a[i] != b[i] {
            return false;
        }
        i += 1;
    }
    assert(a@ =~= b@);
    true
}

/// Whether two string slices hold the same characters.
pub fn same_text(a: &str, b: &str) -> (r: bool)
    ensures
        r == (a@ == b@),
{
    let va = chars_of(a);
    let vb = chars_of(b);
    same_chars(&va, &vb)
}

/// A string made of the characters of `chars` from `from` up to `to`.
pub fn string_of(chars: &Vec<char>, from: usize, to: usize) -> (s: String)
    requires
        from <= to <= chars.len(),
    ensures
        s@ == chars@.subrange(from as int, to as int),
{
    let mut s = String::new();
    let mut i: usize = from;
    while i < to
        invariant
            from <= i <= to <= chars.len(),
            s@ == chars@.subrange(from as int, i as int),
        decreases to - i,
    {
        s.push(chars[i]);
        assert(chars@.subrange(from as int, i as int).push(chars@[i as int])
            =~= chars@.subrange(from as int, i + 1));
        i += 1;
    }
    s
}

/// `Itertools::peeking_take_while` on the characters of `chars` from
/// `from` on, cut off after `limit` characters and joined into a string
/// with `Itertools::join`: the characters are handed to `accept` one by
/// one, in order, and taken as long as it accepts them; the first one that
/// it refuses is left where it is, and nothing after it is looked at. The
/// string holds the characters taken, unchanged and in their order.
#[verifier::external_body]
fn take_joined<F: Fn(&char) -> bool>(chars: &Vec<char>, from: usize, accept: &F, limit: usize) -> (run:
    String)
    requires
        from <= chars.len(),
        forall|c: char| call_requires(accept, (&c,)),
    ensures
        run@.len() <= limit,
        from + run@.len() <= chars@.len(),
        run@ == chars@.subrange(from as int, from + run@.len()),
        forall|i: int| 0 <= i < run@.len() ==> call_ensures(accept, (&#[trigger] run@[i],), true),
        run@.len() < limit && from + run@.len() < chars@.len() ==> call_ensures(
            accept,
            (&chars@[from + run@.len()],),
            false,
        ),
{
    let mut rest = chars[from..].iter();
    rest.peeking_take_while(|c| accept(*c)).take(limit).join("")
}

/// A position in a buffer of characters. The buffer never changes; the
/// position only moves forward.
#[derive(Debug)]
pub struct Cursor {
    input: Vec<char>,
    pos: usize,
}

impl Cursor {
    #[verifier::type_invariant]
    spec fn in_bounds(self) -> bool {
        self.pos <= self.input.len()
    }

    /// The whole buffer.
    pub closed spec fn text(&self) -> Seq<char> {
        self.input@
    }

    /// The position: how many characters of the buffer are behind the cursor.
    pub closed spec fn offset(&self) -> int {
        self.pos as int
    }

    /// A cursor at the start of the characters of `input`.
    pub fn new(input: &str) -> (c: Cursor)
        ensures
            c.text() == input@,
            c.offset() == 0,
    {
        Cursor { input: chars_of(input), pos: 0 }
    }

    /// The position, as a number.
    pub fn position(&self) -> (p: usize)
        ensures
            p == self.offset(),
            p <= self.text().len(),
    {
        proof {
            use_type_invariant(self);
        }
        self.pos
    }

    /// How many characters the buffer holds.
    pub fn length(&self) -> (n: usize)
        ensures
            n == self.text().len(),
    {
        self.input.len()
    }

    /// The error for something missing at the cursor.
    pub fn missing(&self, expected: Expected) -> (e: ParseError)
        ensures
            e == structural(self.text(), self.offset(), expected),
    {
        proof {
            use_type_invariant(self);
        }
        let found = if self.pos < self.input.len() {
            Found::Char(self.input[self.pos])
        } else {
            Found::EndOfInput
        };
        ParseError { kind: ErrorKind::StructuralParseError, offset: self.pos, expected, found }
    }

    /// The error for something unreadable at the cursor.
    pub fn unreadable(&self, expected: Expected) -> (e: ParseError)
        ensures
            e == lexical(self.text(), self.offset(), expected),
    {
        proof {
            use_type_invariant(self);
        }
        let found = if self.pos < self.input.len() {
            Found::Char(self.input[self.pos])
        } else {
            Found::EndOfInput
        };
        ParseError { kind: ErrorKind::LexError, offset: self.pos, expected, found }
    }

    /// The character at the cursor, which stays where it is.
    pub fn peek(&self) -> (c: Option<char>)
        ensures
            c == char_at(self.text(), self.offset()),
            0 <= self.offset() <= self.text().len(),
    {
        proof {
            use_type_invariant(self);
        }
        if self.pos < self.input.len() {
            Some(self.input[self.pos])
        } else {
            None
        }
    }

    /// The character at the cursor, which moves past it. At the end of the
    /// buffer nothing moves.
    pub fn next(&mut self) -> (c: Option<char>)
        ensures
            final(self).text() == old(self).text(),
            c == char_at(old(self).text(), old(self).offset()),
            final(self).offset() == old(self).offset() + if c is Some { 1int } else { 0int },
            0 <= old(self).offset() <= final(self).offset() <= old(self).text().len(),
    {
        proof {
            use_type_invariant(&*self);
        }
        if self.pos < self.input.len() {
            let c = self.input[self.pos];
            self.pos = self.pos + 1;
            Some(c)
        } else {
            None
        }
    }

    /// Moves the cursor past any whitespace.
    pub fn skip_whitespace(&mut self)
        ensures
            final(self).text() == old(self).text(),
            final(self).offset() == ws_end(old(self).text(), old(self).offset()),
            0 <= old(self).offset() <= final(self).offset() <= old(self).text().len(),
    {
        proof {
            use_type_invariant(&*self);
        }
        let ghost start = self.pos as int;
        let ghost accept = |c: char| is_white_space(c);
        while self.pos < self.input.len() && self.input[self.pos].is_whitespace()
            invariant
                self.input == old(self).input,
                start <= self.pos <= self.input.len(),
                accept == (|c: char| is_white_space(c)),
                forall|i: int| start <= i < self.pos ==> accept(#[trigger] self.input@[i]),
            decreases self.input.len() - self.pos,
        {
            self.pos = self.pos + 1;
        }
        proof {
            lemma_run_end_is(self.input@, start, self.pos as int, accept);
        }
    }

    /// Takes the longest run of characters that `accept` accepts, and moves
    /// the cursor to its end. The first character that is not accepted stays.
    pub fn take_while<F: Fn(&char) -> bool>(&mut self, accept: &F) -> (run: String)
        requires
            forall|c: char| call_requires(accept, (&c,)),
        ensures
            final(self).text() == old(self).text(),
            final(self).offset() == old(self).offset() + run@.len(),
            0 <= old(self).offset() <= final(self).offset() <= old(self).text().len(),
            run@ == old(self).text().subrange(old(self).offset(), final(self).offset()),
            forall|i: int| 0 <= i < run@.len() ==> call_ensures(accept, (&#[trigger] run@[i],), true),
            final(self).offset() < old(self).text().len() ==> call_ensures(
                accept,
                (&old(self).text()[final(self).offset()],),
                false,
            ),
    {
        let limit = self.input.len();
        self.take_while_up_to(accept, limit)
    }

    /// As [`Cursor::take_while`], but takes at most `limit` characters.
    pub fn take_while_up_to<F: Fn(&char) -> bool>(&mut self, accept: &F, limit: usize) -> (run:
        String)
        requires
            forall|c: char| call_requires(accept, (&c,)),
        ensures
            final(self).text() == old(self).text(),
            final(self).offset() == old(self).offset() + run@.len(),
            0 <= old(self).offset() <= final(self).offset() <= old(self).text().len(),
            run@.len() <= limit,
            run@ == old(self).text().subrange(old(self).offset(), final(self).offset()),
            forall|i: int| 0 <= i < run@.len() ==> call_ensures(accept, (&#[trigger] run@[i],), true),
            run@.len() < limit && final(self).offset() < old(self).text().len() ==> call_ensures(
                accept,
                (&old(self).text()[final(self).offset()],),
                false,
            ),
    {
        proof {
            use_type_invariant(&*self);
        }
        let start = self.pos;
        let mut run = String::new();
        let mut taken: usize = 0;
        while taken < limit && self.pos < self.input.len()
            invariant
                self.input == old(self).input,
                start == old(self).pos,
                start + taken == self.pos,
                self.pos <= self.input.len(),
                taken <= limit,
                run@ == self.input@.subrange(start as int, self.pos as int),
                forall|c: char| call_requires(accept, (&c,)),
                forall|i: int| 0 <= i < run@.len() ==> call_ensures(accept, (&#[trigger] run@[i],), true),
            ensures
                self.input == old(self).input,
                start + taken == self.pos,
                self.pos <= self.input.len(),
                taken <= limit,
                run@ == self.input@.subrange(start as int, self.pos as int),
                forall|i: int| 0 <= i < run@.len() ==> call_ensures(accept, (&#[trigger] run@[i],), true),
                taken < limit && self.pos < self.input.len() ==> call_ensures(
                    accept,
                    (&self.input@[self.pos as int],),
                    false,
                ),
            decreases self.input.len() - self.pos,
        {
            let c = self.input[self.pos];
            if !accept(&c) {
                break;
            }
            run.push(c);
            assert(self.input@.subrange(start as int, self.pos as int).push(c)
                =~= self.input@.subrange(start as int, self.pos + 1));
            self.pos = self.pos + 1;
            taken = taken + 1;
        }
        run
    }

    /// Takes the longest run of characters of the class that `accept`
    /// decides, and moves the cursor to its end.
    pub(crate) fn take_class<F: Fn(&char) -> bool>(
        &mut self,
        accept: &F,
        Ghost(class): Ghost<spec_fn(char) -> bool>,
    ) -> (run: String)
        requires
            forall|c: char| call_requires(accept, (&c,)),
            forall|c: char, b: bool| call_ensures(accept, (&c,), b) ==> b == class(c),
        ensures
            final(self).text() == old(self).text(),
            final(self).offset() == run_end(old(self).text(), old(self).offset(), class),
            0 <= old(self).offset() <= final(self).offset() <= old(self).text().len(),
            run@ == old(self).text().subrange(old(self).offset(), final(self).offset()),
    {
        let ghost s = self.text();
        let ghost p = self.offset();
        let run = self.take_while(accept);
        proof {
            let e = self.offset();
            assert forall|i: int| p <= i < e implies class(#[trigger] s[i]) by {
                assert(s[i] == run@[i - p]);
                assert(call_ensures(accept, (&run@[i - p],), true));
            }
            lemma_run_end_is(s, p, e, class);
        }
        run
    }

    /// As [`Cursor::take_class`], but takes at most `limit` characters.
    pub(crate) fn take_class_up_to<F: Fn(&char) -> bool>(
        &mut self,
        accept: &F,
        limit: usize,
        Ghost(class): Ghost<spec_fn(char) -> bool>,
    ) -> (run: String)
        requires
            forall|c: char| call_requires(accept, (&c,)),
            forall|c: char, b: bool| call_ensures(accept, (&c,), b) ==> b == class(c),
        ensures
            final(self).text() == old(self).text(),
            final(self).offset() == bounded_run_end(
                old(self).text(),
                old(self).offset(),
                class,
                limit as nat,
            ),
            0 <= old(self).offset() <= final(self).offset() <= old(self).text().len(),
            run@ == old(self).text().subrange(old(self).offset(), final(self).offset()),
            run@.len() <= limit,
    {
        let ghost s = self.text();
        let ghost p = self.offset();
        let run = self.take_while_up_to(accept, limit);
        proof {
            let e = self.offset();
            assert forall|i: int| p <= i < e implies class(#[trigger] s[i]) by {
                assert(s[i] == run@[i - p]);
                assert(call_ensures(accept, (&run@[i - p],), true));
            }
            lemma_bounded_run_end_is(s, p, e, class, limit as nat);
        }
        run
    }

    /// As [`Cursor::take_while_up_to`], the run being taken and joined by
    /// the iterator adaptors.
    pub fn take_joined_up_to<F: Fn(&char) -> bool>(&mut self, accept: &F, limit: usize) -> (run:
        String)
        requires
            forall|c: char| call_requires(accept, (&c,)),
        ensures
            final(self).text() == old(self).text(),
            final(self).offset() == old(self).offset() + run@.len(),
            0 <= old(self).offset() <= final(self).offset() <= old(self).text().len(),
            run@.len() <= limit,
            run@ == old(self).text().subrange(old(self).offset(), final(self).offset()),
            forall|i: int| 0 <= i < run@.len() ==> call_ensures(accept, (&#[trigger] run@[i],), true),
            run@.len() < limit && final(self).offset() < old(self).text().len() ==> call_ensures(
                accept,
                (&old(self).text()[final(self).offset()],),
                false,
            ),
    {
        proof {
            use_type_invariant(&*self);
        }
        let run = take_joined(&self.input, self.pos, accept, limit);
        let taken = run.as_str().unicode_len();
        self.pos = self.pos + taken;
        run
    }

    /// As [`Cursor::take_class`], the run being taken and joined by the
    /// iterator adaptors.
    pub(crate) fn take_joined_class<F: Fn(&char) -> bool>(
        &mut self,
        accept: &F,
        Ghost(class): Ghost<spec_fn(char) -> bool>,
    ) -> (run: String)
        requires
            forall|c: char| call_requires(accept, (&c,)),
            forall|c: char, b: bool| call_ensures(accept, (&c,), b) ==> b == class(c),
        ensures
            final(self).text() == old(self).text(),
            final(self).offset() == run_end(old(self).text(), old(self).offset(), class),
            0 <= old(self).offset() <= final(self).offset() <= old(self).text().len(),
            run@ == old(self).text().subrange(old(self).offset(), final(self).offset()),
    {
        let ghost s = self.text();
        let ghost p = self.offset();
        let limit = self.input.len();
        let run = self.take_joined_up_to(accept, limit);
        proof {
            let e = self.offset();
            assert forall|i: int| p <= i < e implies class(#[trigger] s[i]) by {
                assert(s[i] == run@[i - p]);
                assert(call_ensures(accept, (&run@[i - p],), true));
            }
            lemma_run_end_is(s, p, e, class);
        }
        run
    }

    /// As [`Cursor::take_class_up_to`], the run being taken and joined by
    /// the iterator adaptors.
    pub(crate) fn take_joined_class_up_to<F: Fn(&char) -> bool>(
        &mut self,
        accept: &F,
        limit: usize,
        Ghost(class): Ghost<spec_fn(char) -> bool>,
    ) -> (run: String)
        requires
            forall|c: char| call_requires(accept, (&c,)),
            forall|c: char, b: bool| call_ensures(accept, (&c,), b) ==> b == class(c),
        ensures
            final(self).text() == old(self).text(),
            final(self).offset() == bounded_run_end(
                old(self).text(),
                old(self).offset(),
                class,
                limit as nat,
            ),
            0 <= old(self).offset() <= final(self).offset() <= old(self).text().len(),
            run@ == old(self).text().subrange(old(self).offset(), final(self).offset()),
            run@.len() <= limit,
    {
        let ghost s = self.text();
        let ghost p = self.offset();
        let run = self.take_joined_up_to(accept, limit);
        proof {
            let e = self.offset();
            assert forall|i: int| p <= i < e implies class(#[trigger] s[i]) by {
                assert(s[i] == run@[i - p]);
                assert(call_ensures(accept, (&run@[i - p],), true));
            }
            lemma_bounded_run_end_is(s, p, e, class, limit as nat);
        }
        run
    }
}

} // verus!
