//! What holds of selectors that are read and written. In every selector
//! that is read the combinators nest to the right, and it is written as it
//! stood in the text, whatever blank space stood around its parts. A
//! selector that is written is read again as the selector that it is.

use vstd::prelude::*;
use crate::cssom::SelectorView;
use crate::cssom::format::selector_text;
use crate::cssom::grammar::combinator_at;
use crate::cssom::grammar::compound_at;
use crate::cssom::grammar::selector_at;
use crate::dom::TagNameView;
use crate::dom::tag_name_of;
use crate::dom::tag_text;
use crate::error::ParseError;
use crate::text::char_at;
use crate::text::ident_at;
use crate::text::ident_end;
use crate::text::is_ascii_alnum;
use crate::text::is_ident_char;
use crate::text::is_white_space;
use crate::text::lemma_ident_advances;
use crate::text::lemma_run_end_accepts;
use crate::text::lemma_run_end_bounds;
use crate::text::lemma_run_end_is;
use crate::text::lemma_ws_end;
use crate::text::ws_end;

verus! {

/// Whether a selector holds no combinator: it is a tag, or a class or an
/// id on top of a selector without a combinator, or by itself.
pub open spec fn is_compound(selector: SelectorView) -> bool
    decreases selector,
{
    match selector {
        SelectorView::Tag(_) => true,
        SelectorView::Class(None, _) => true,
        SelectorView::Class(Some(left), _) => is_compound(*left),
        SelectorView::Id(None, _) => true,
        SelectorView::Id(Some(left), _) => is_compound(*left),
        SelectorView::Child(_, _) => false,
        SelectorView::Adjacent(_, _) => false,
    }
}

/// Whether the combinators of a selector nest to the right: the left side
/// of each of them holds no combinator, and its right side nests in the
/// same way.
pub open spec fn nests_right(selector: SelectorView) -> bool
    decreases selector,
{
    match selector {
        SelectorView::Child(left, right) => is_compound(*left) && nests_right(*right),
        SelectorView::Adjacent(left, right) => is_compound(*left) && nests_right(*right),
        _ => is_compound(selector),
    }
}

/// What is read on top of a selector without a combinator nests to the
/// right.
proof fn lemma_compound_nests_right(s: Seq<char>, p: int, left: Option<SelectorView>)
    requires
        0 <= p <= s.len(),
        left matches Some(l) ==> is_compound(l),
    ensures
        compound_at(s, p, left) matches Ok((selector, _)) ==> nests_right(selector),
    decreases s.len() - p, 1int,
{
    let q = ws_end(s, p);
    let boxed = match left {
        Some(l) => Some(Box::new(l)),
        None => None,
    };
    lemma_ws_end(s, p);
    lemma_ident_advances(s, q + 1);
    match char_at(s, q) {
        Some(c) => {
            let (name, n) = ident_at(s, q + 1);
            if c == '.' {
                lemma_compound_nests_right(s, n, Some(SelectorView::Class(boxed, name)));
            } else if c == '#' {
                lemma_compound_nests_right(s, n, Some(SelectorView::Id(boxed, name)));
            } else if c == '>' || c == '+' {
                assert(compound_at(s, p, left) == combinator_at(s, p, left));
                if left is Some {
                    lemma_selectors_nest_right(s, q + 1);
                }
            }
        },
        None => {},
    }
}

/// Combinators nest to the right. In every selector that is read, the
/// left side of a combinator holds no combinator: `a > b > c` is read as
/// `a > (b > c)`, never as `(a > b) > c`.
pub proof fn lemma_selectors_nest_right(s: Seq<char>, p: int)
    requires
        0 <= p <= s.len(),
    ensures
        selector_at(s, p) matches Ok((selector, _)) ==> nests_right(selector),
    decreases s.len() - p, 2int,
{
    let q = ws_end(s, p);
    lemma_ws_end(s, p);
    lemma_ident_advances(s, p);
    if char_at(s, q) matches Some(c) && is_ascii_alnum(c) {
        let (name, n) = ident_at(s, p);
        lemma_compound_nests_right(s, n, Some(SelectorView::Tag(tag_name_of(name))));
    } else {
        lemma_compound_nests_right(s, q, None);
    }
}

/// Whether `c` leaves a mark: it is no whitespace.
pub open spec fn is_ink(c: char) -> bool {
    !is_white_space(c)
}

/// The characters of `t` that leave a mark, in their order.
pub open spec fn inked(t: Seq<char>) -> Seq<char>
    decreases t.len(),
{
    if t.len() == 0 {
        t
    } else if is_ink(t.last()) {
        inked(t.drop_last()).push(t.last())
    } else {
        inked(t.drop_last())
    }
}

/// The marks of two texts set one after the other are the marks of the
/// first and then those of the second.
pub proof fn lemma_inked_add(a: Seq<char>, b: Seq<char>)
    ensures
        inked(a + b) == inked(a) + inked(b),
    decreases b.len(),
{
    if b.len() == 0 {
        assert(a + b =~= a);
        assert(inked(a) + inked(b) =~= inked(a));
    } else {
        lemma_inked_add(a, b.drop_last());
        assert((a + b).drop_last() =~= a + b.drop_last());
        assert((a + b).last() == b.last());
        if is_ink(b.last()) {
            assert((inked(a) + inked(b.drop_last())).push(b.last()) =~= inked(a) + inked(
                b.drop_last(),
            ).push(b.last()));
        }
    }
}

/// The marks of a text of one character.
pub proof fn lemma_inked_one(c: char)
    ensures
        inked(seq![c]) == if is_ink(c) {
            seq![c]
        } else {
            Seq::empty()
        },
{
    let t = seq![c];
    assert(t.drop_last() =~= Seq::<char>::empty());
    assert(inked(t.drop_last()) =~= Seq::<char>::empty());
    assert(t.last() == c);
    if is_ink(c) {
        assert(Seq::<char>::empty().push(c) =~= seq![c]);
    }
}

/// The marks of a part of a text are those of its two halves, at whatever
/// place it is cut.
pub proof fn lemma_inked_cut(s: Seq<char>, a: int, b: int, c: int)
    requires
        0 <= a <= b <= c <= s.len(),
    ensures
        inked(s.subrange(a, c)) == inked(s.subrange(a, b)) + inked(s.subrange(b, c)),
{
    assert(s.subrange(a, c) =~= s.subrange(a, b) + s.subrange(b, c));
    lemma_inked_add(s.subrange(a, b), s.subrange(b, c));
}

/// Whitespace leaves no mark.
pub proof fn lemma_inked_blank(s: Seq<char>, a: int, b: int)
    requires
        0 <= a <= b <= s.len(),
        forall|i: int| a <= i < b ==> is_white_space(#[trigger] s[i]),
    ensures
        inked(s.subrange(a, b)) == Seq::<char>::empty(),
    decreases b - a,
{
    let t = s.subrange(a, b);
    if a < b {
        lemma_inked_blank(s, a, b - 1);
        assert(t.drop_last() =~= s.subrange(a, b - 1));
        assert(t.last() == s[b - 1]);
    }
}

/// The whitespace after a part of a text adds no mark to it.
pub proof fn lemma_inked_skips(s: Seq<char>, a: int, b: int)
    requires
        0 <= a <= b <= s.len(),
    ensures
        b <= ws_end(s, b) <= s.len(),
        inked(s.subrange(a, ws_end(s, b))) == inked(s.subrange(a, b)),
{
    let e = ws_end(s, b);
    lemma_ws_end(s, b);
    lemma_run_end_accepts(s, b, |c: char| is_white_space(c));
    lemma_inked_blank(s, b, e);
    lemma_inked_cut(s, a, b, e);
    assert(inked(s.subrange(a, b)) + Seq::<char>::empty() =~= inked(s.subrange(a, b)));
}

/// What the parts of a compound selector add to the selector on their
/// left is written as it was read: where `left` is written with the marks
/// of the text between `from` and `p`, the selector that is read from `p`
/// on with `left` on its left is written with the marks of the text
/// between `from` and its end.
proof fn lemma_compound_is_written_as_read(
    s: Seq<char>,
    from: int,
    p: int,
    left: Option<SelectorView>,
)
    requires
        0 <= from <= p <= s.len(),
        match left {
            Some(l) => inked(selector_text(l)) == inked(s.subrange(from, p)),
            None => inked(s.subrange(from, p)) == Seq::<char>::empty(),
        },
    ensures
        compound_at(s, p, left) matches Ok((selector, n)) ==> p <= n <= s.len() && inked(
            selector_text(selector),
        ) == inked(s.subrange(from, n)),
    decreases s.len() - p, 1int,
{
    let q = ws_end(s, p);
    lemma_inked_skips(s, from, p);
    let before = match left {
        Some(l) => selector_text(l),
        None => Seq::<char>::empty(),
    };
    match char_at(s, q) {
        Some(c) => {
            lemma_inked_cut(s, from, q, q + 1);
            assert(s.subrange(q, q + 1) =~= seq![c]);
            if c == '.' || c == '#' {
                let a = ws_end(s, q + 1);
                let e = ident_end(s, a);
                let (name, n) = ident_at(s, q + 1);
                lemma_ident_advances(s, q + 1);
                lemma_inked_skips(s, from, q + 1);
                lemma_run_end_bounds(s, a, |c: char| is_ident_char(c));
                lemma_inked_cut(s, from, a, e);
                lemma_inked_skips(s, from, e);
                let mark = if c == '.' {
                    "."@
                } else {
                    "#"@
                };
                reveal_strlit(".");
                reveal_strlit("#");
                assert(mark =~= seq![c]);
                let next = if c == '.' {
                    SelectorView::Class(
                        match left {
                            Some(l) => Some(Box::new(l)),
                            None => None,
                        },
                        name,
                    )
                } else {
                    SelectorView::Id(
                        match left {
                            Some(l) => Some(Box::new(l)),
                            None => None,
                        },
                        name,
                    )
                };
                assert(selector_text(next) =~= before + mark + name);
                lemma_inked_add(before + mark, name);
                lemma_inked_add(before, mark);
                assert(inked(before) == inked(s.subrange(from, p))) by {
                    if left is None {
                        assert(inked(before) =~= Seq::<char>::empty());
                    }
                }
                lemma_compound_is_written_as_read(s, from, n, Some(next));
                assert(compound_at(s, p, left) == compound_at(s, n, Some(next)));
            } else if c == '>' || c == '+' {
                if let Some(l) = left {
                    lemma_selector_is_written_as_read(s, q + 1);
                    if let Ok((right, n)) = selector_at(s, q + 1) {
                        let mark = if c == '>' {
                            " > "@
                        } else {
                            " + "@
                        };
                        reveal_strlit(" > ");
                        reveal_strlit(" + ");
                        assert(mark =~= seq![' '] + seq![c] + seq![' ']);
                        lemma_inked_add(seq![' '] + seq![c], seq![' ']);
                        lemma_inked_add(seq![' '], seq![c]);
                        lemma_inked_one(' ');
                        assert(inked(mark) =~= inked(seq![c]));
                        let selector = if c == '>' {
                            SelectorView::Child(Box::new(l), Box::new(right))
                        } else {
                            SelectorView::Adjacent(Box::new(l), Box::new(right))
                        };
                        assert(selector_text(selector) =~= before + mark + selector_text(right));
                        lemma_inked_add(before + mark, selector_text(right));
                        lemma_inked_add(before, mark);
                        lemma_inked_cut(s, from, q + 1, n);
                        assert(compound_at(s, p, left) == combinator_at(s, p, left));
                    }
                }
            }
        },
        None => {},
    }
}

/// A selector is written as it was read. The text that the selector at
/// `p` is written as and the text that it was read from hold the same
/// marks in the same order: they differ only in the blank space between
/// the parts of the selector.
pub proof fn lemma_selector_is_written_as_read(s: Seq<char>, p: int)
    requires
        0 <= p <= s.len(),
    ensures
        selector_at(s, p) matches Ok((selector, n)) ==> p <= n <= s.len() && inked(
            selector_text(selector),
        ) == inked(s.subrange(p, n)),
    decreases s.len() - p, 2int,
{
    let q = ws_end(s, p);
    lemma_inked_skips(s, p, p);
    assert(inked(s.subrange(p, p)) =~= Seq::<char>::empty());
    lemma_ident_advances(s, p);
    if char_at(s, q) matches Some(c) && is_ascii_alnum(c) {
        let e = ident_end(s, q);
        let (name, n) = ident_at(s, p);
        let tag = tag_name_of(name);
        lemma_run_end_bounds(s, q, |c: char| is_ident_char(c));
        lemma_inked_cut(s, p, q, e);
        lemma_inked_skips(s, p, e);
        assert(tag_text(tag) == name);
        assert(inked(s.subrange(p, q)) + inked(name) =~= inked(name));
        lemma_compound_is_written_as_read(s, p, n, Some(SelectorView::Tag(tag)));
    } else {
        lemma_compound_is_written_as_read(s, p, q, None);
    }
}

/// Whether `name` can stand where an identifier is written: it is not
/// empty and holds characters of identifiers only.
pub open spec fn is_name(name: Seq<char>) -> bool {
    name.len() > 0 && forall|i: int| 0 <= i < name.len() ==> is_ident_char(#[trigger] name[i])
}

/// Whether a tag is read as it is written: its text is a name that starts
/// with a letter or a digit, and the tag that this name stands for is the
/// tag itself.
pub open spec fn tag_is_readable(tag: TagNameView) -> bool {
    is_name(tag_text(tag)) && is_ascii_alnum(tag_text(tag)[0]) && tag_name_of(tag_text(tag)) == tag
}

/// Every tag of the table is read as it is written.
pub proof fn lemma_known_tags_are_readable(tag: TagNameView)
    requires
        !(tag is Other),
    ensures
        tag_is_readable(tag),
{
    reveal_strlit("html");
    reveal_strlit("main");
    reveal_strlit("head");
    reveal_strlit("meta");
    reveal_strlit("title");
    reveal_strlit("body");
    reveal_strlit("style");
    reveal_strlit("script");
    reveal_strlit("div");
    reveal_strlit("p");
    reveal_strlit("h1");
    reveal_strlit("h2");
    reveal_strlit("h3");
    reveal_strlit("a");
    reveal_strlit("article");
    assert("article"@.len() == 7 && "article"@[0] == 'a');
    assert("html"@.len() == 4 && "html"@[0] == 'h' && "html"@[1] == 't');
    assert("main"@.len() == 4 && "main"@[0] == 'm' && "main"@[1] == 'a');
    assert("head"@.len() == 4 && "head"@[0] == 'h' && "head"@[1] == 'e');
    assert("meta"@.len() == 4 && "meta"@[0] == 'm' && "meta"@[1] == 'e');
    assert("title"@.len() == 5 && "title"@[0] == 't' && "title"@[1] == 'i');
    assert("body"@.len() == 4 && "body"@[0] == 'b' && "body"@[1] == 'o');
    assert("style"@.len() == 5 && "style"@[0] == 's' && "style"@[1] == 't');
    assert("script"@.len() == 6 && "script"@[0] == 's' && "script"@[1] == 'c');
    assert("div"@.len() == 3 && "div"@[0] == 'd' && "div"@[1] == 'i');
    assert("p"@.len() == 1 && "p"@[0] == 'p');
    assert("h1"@.len() == 2 && "h1"@[0] == 'h' && "h1"@[1] == '1');
    assert("h2"@.len() == 2 && "h2"@[0] == 'h' && "h2"@[1] == '2');
    assert("h3"@.len() == 2 && "h3"@[0] == 'h' && "h3"@[1] == '3');
    assert("a"@.len() == 1 && "a"@[0] == 'a');
}

/// Whether a selector without a combinator is read as it is written: its
/// tag is, and its classes and ids are names.
pub open spec fn compound_is_readable(selector: SelectorView) -> bool
    decreases selector,
{
    match selector {
        SelectorView::Tag(tag) => tag_is_readable(tag),
        SelectorView::Class(None, name) => is_name(name),
        SelectorView::Class(Some(left), name) => compound_is_readable(*left) && is_name(name),
        SelectorView::Id(None, name) => is_name(name),
        SelectorView::Id(Some(left), name) => compound_is_readable(*left) && is_name(name),
        SelectorView::Child(_, _) => false,
        SelectorView::Adjacent(_, _) => false,
    }
}

/// Whether a selector is read as it is written: its combinators nest to
/// the right, and the selectors without a combinator that it is made of
/// are read as they are written.
pub open spec fn is_readable(selector: SelectorView) -> bool
    decreases selector,
{
    match selector {
        SelectorView::Child(left, right) => compound_is_readable(*left) && is_readable(*right),
        SelectorView::Adjacent(left, right) => compound_is_readable(*left) && is_readable(*right),
        _ => compound_is_readable(selector),
    }
}

/// Whether `c` is one of the characters with which a selector goes on.
pub open spec fn continues_selector(c: char) -> bool {
    c == '.' || c == '#' || c == '>' || c == '+'
}

/// Whether the text `t` stands in `s` at `p`.
pub open spec fn stands_at(s: Seq<char>, p: int, t: Seq<char>) -> bool {
    0 <= p && p + t.len() <= s.len() && s.subrange(p, p + t.len()) == t
}

/// Where two texts stand one after the other, each of them stands in its
/// place.
pub proof fn lemma_stands_apart(s: Seq<char>, p: int, a: Seq<char>, b: Seq<char>)
    requires
        stands_at(s, p, a + b),
    ensures
        stands_at(s, p, a),
        stands_at(s, p + a.len(), b),
{
    let t = a + b;
    assert(s.subrange(p, p + a.len()) =~= a) by {
        assert forall|i: int| 0 <= i < a.len() implies s[p + i] == a[i] by {
            assert(s.subrange(p, p + t.len())[i] == t[i]);
        }
    }
    assert(s.subrange(p + a.len(), p + a.len() + b.len()) =~= b) by {
        assert forall|i: int| 0 <= i < b.len() implies s[p + a.len() + i] == b[i] by {
            assert(s.subrange(p, p + t.len())[a.len() + i] == t[a.len() + i]);
        }
    }
}

/// A text that stands at `p` has its characters there.
pub proof fn lemma_stands_char(s: Seq<char>, p: int, t: Seq<char>, i: int)
    requires
        stands_at(s, p, t),
        0 <= i < t.len(),
    ensures
        s[p + i] == t[i],
{
    assert(s.subrange(p, p + t.len())[i] == t[i]);
}

/// No whitespace is skipped at a character that is none, nor at the end.
pub proof fn lemma_ws_stays(s: Seq<char>, p: int)
    requires
        0 <= p <= s.len(),
        p < s.len() ==> !is_white_space(s[p]),
    ensures
        ws_end(s, p) == p,
{
    lemma_run_end_is(s, p, p, |c: char| is_white_space(c));
}

/// A name that stands at `p` and ends there is the identifier at `p`.
pub proof fn lemma_name_is_read(s: Seq<char>, p: int, name: Seq<char>)
    requires
        is_name(name),
        stands_at(s, p, name),
        p + name.len() < s.len() ==> !is_ident_char(s[p + name.len()]),
    ensures
        ident_at(s, p) == (name, ws_end(s, p + name.len())),
{
    assert(s[p] == name[0]) by {
        assert(s.subrange(p, p + name.len())[0] == name[0]);
    }
    lemma_ws_stays(s, p);
    assert forall|i: int| p <= i < p + name.len() implies is_ident_char(#[trigger] s[i]) by {
        assert(s.subrange(p, p + name.len())[i - p] == name[i - p]);
    }
    lemma_run_end_is(s, p, p + name.len(), |c: char| is_ident_char(c));
}

/// What is read after a part of a compound selector does not depend on
/// the whitespace before it.
pub proof fn lemma_compound_skips(s: Seq<char>, p: int, left: Option<SelectorView>)
    requires
        0 <= p <= s.len(),
    ensures
        compound_at(s, p, left) == compound_at(s, ws_end(s, p), left),
{
    lemma_ws_end(s, p);
    let q = ws_end(s, p);
    assert(combinator_at(s, p, left) == combinator_at(s, q, left));
}

/// A selector is read in the same way from the whitespace before it.
pub proof fn lemma_selector_skips(s: Seq<char>, p: int)
    requires
        0 <= p <= s.len(),
    ensures
        selector_at(s, p) == selector_at(s, ws_end(s, p)),
{
    lemma_ws_end(s, p);
}

/// A selector without a combinator that is read as it is written is a
/// selector that is.
pub proof fn lemma_compound_can_be_read(selector: SelectorView)
    requires
        compound_is_readable(selector),
    ensures
        is_readable(selector),
{
}

/// The text of a selector that is read as it is written starts with a
/// letter, a digit, `.` or `#`.
pub proof fn lemma_selector_text_starts(selector: SelectorView)
    requires
        is_readable(selector),
    ensures
        selector_text(selector).len() > 0,
        is_ascii_alnum(selector_text(selector)[0]) || selector_text(selector)[0] == '.'
            || selector_text(selector)[0] == '#',
    decreases selector,
{
    reveal_strlit(".");
    reveal_strlit("#");
    match selector {
        SelectorView::Tag(_) => {},
        SelectorView::Class(None, _) => {},
        SelectorView::Id(None, _) => {},
        SelectorView::Class(Some(left), _) => {
            lemma_compound_can_be_read(*left);
            lemma_selector_text_starts(*left);
        },
        SelectorView::Id(Some(left), _) => {
            lemma_compound_can_be_read(*left);
            lemma_selector_text_starts(*left);
        },
        SelectorView::Child(left, _) => {
            lemma_compound_can_be_read(*left);
            lemma_selector_text_starts(*left);
        },
        SelectorView::Adjacent(left, _) => {
            lemma_compound_can_be_read(*left);
            lemma_selector_text_starts(*left);
        },
    }
}

/// A selector without a combinator whose text stands at `p` and ends
/// there is read up to the end of its text, as the selector that it is;
/// what is read from `p` is what follows the selector at that end.
proof fn lemma_compound_is_read(s: Seq<char>, p: int, selector: SelectorView)
    requires
        compound_is_readable(selector),
        stands_at(s, p, selector_text(selector)),
        p + selector_text(selector).len() < s.len() ==> !is_ident_char(
            s[p + selector_text(selector).len()],
        ),
    ensures
        selector_at(s, p) == compound_at(s, p + selector_text(selector).len(), Some(selector)),
    decreases selector,
{
    reveal_strlit(".");
    reveal_strlit("#");
    let t = selector_text(selector);
    let e = p + t.len();
    lemma_selector_text_starts(selector);
    assert(s[p] == t[0]) by {
        assert(s.subrange(p, e)[0] == t[0]);
    }
    lemma_ws_stays(s, p);
    match selector {
        SelectorView::Tag(tag) => {
            lemma_name_is_read(s, p, t);
            lemma_compound_skips(s, e, Some(selector));
        },
        SelectorView::Child(_, _) => {},
        SelectorView::Adjacent(_, _) => {},
        _ => {
            let (left, mark, name) = match selector {
                SelectorView::Class(Some(l), name) => (Some(*l), "."@, name),
                SelectorView::Class(None, name) => (None, "."@, name),
                SelectorView::Id(Some(l), name) => (Some(*l), "#"@, name),
                SelectorView::Id(None, name) => (None, "#"@, name),
                _ => arbitrary(),
            };
            let before = match left {
                Some(l) => selector_text(l),
                None => Seq::<char>::empty(),
            };
            assert(t =~= (before + mark) + name);
            lemma_stands_apart(s, p, before + mark, name);
            lemma_stands_apart(s, p, before, mark);
            let d = p + before.len();
            assert(s[d] == mark[0]) by {
                assert(s.subrange(d, d + mark.len())[0] == mark[0]);
            }
            lemma_ws_stays(s, d);
            lemma_name_is_read(s, d + 1, name);
            lemma_compound_skips(s, e, Some(selector));
            match left {
                Some(l) => {
                    lemma_compound_is_read(s, p, l);
                    assert(compound_at(s, d, left) == compound_at(
                        s,
                        ws_end(s, e),
                        Some(selector),
                    ));
                },
                None => {
                    assert(selector_at(s, p) == compound_at(s, p, None));
                    assert(compound_at(s, p, left) == compound_at(
                        s,
                        ws_end(s, e),
                        Some(selector),
                    ));
                },
            }
        },
    }
}

/// A selector is read as it is written. Where the text of a selector
/// stands at `p`, and after it neither a character of an identifier nor,
/// behind whitespace, one with which a selector goes on, the selector at
/// `p` is that selector, and it ends behind that whitespace.
pub proof fn lemma_selector_is_read_as_written(s: Seq<char>, p: int, selector: SelectorView)
    requires
        is_readable(selector),
        stands_at(s, p, selector_text(selector)),
        p + selector_text(selector).len() < s.len() ==> !is_ident_char(
            s[p + selector_text(selector).len()],
        ),
        char_at(s, ws_end(s, p + selector_text(selector).len())) matches Some(c)
            ==> !continues_selector(c),
    ensures
        selector_at(s, p) == Ok::<(SelectorView, int), ParseError>(
            (selector, ws_end(s, p + selector_text(selector).len())),
        ),
    decreases selector,
{
    reveal_strlit(" > ");
    reveal_strlit(" + ");
    let t = selector_text(selector);
    let e = p + t.len();
    match selector {
        SelectorView::Child(_, _) | SelectorView::Adjacent(_, _) => {
            let (left, mark, right) = match selector {
                SelectorView::Child(l, r) => (*l, " > "@, *r),
                SelectorView::Adjacent(l, r) => (*l, " + "@, *r),
                _ => arbitrary(),
            };
            let before = selector_text(left);
            let after = selector_text(right);
            assert(t =~= (before + mark) + after);
            lemma_stands_apart(s, p, before + mark, after);
            lemma_stands_apart(s, p, before, mark);
            let d = p + before.len();
            assert(s[d] == ' ' && s[d + 1] == mark[1] && s[d + 2] == ' ') by {
                assert(s.subrange(d, d + mark.len())[0] == mark[0]);
                assert(s.subrange(d, d + mark.len())[1] == mark[1]);
                assert(s.subrange(d, d + mark.len())[2] == mark[2]);
            }
            lemma_compound_is_read(s, p, left);
            lemma_run_end_is(s, d, d + 1, |c: char| is_white_space(c));
            assert(compound_at(s, d, Some(left)) == combinator_at(s, d, Some(left)));
            lemma_selector_text_starts(right);
            assert(s[d + 3] == after[0]) by {
                assert(s.subrange(d + 3, d + 3 + after.len())[0] == after[0]);
            }
            lemma_run_end_is(s, d + 2, d + 3, |c: char| is_white_space(c));
            lemma_selector_skips(s, d + 2);
            lemma_selector_is_read_as_written(s, d + 3, right);
        },
        _ => {
            lemma_compound_is_read(s, p, selector);
        },
    }
}

/// What is written is read again: the text of a selector that is read as
/// it is written, read from its start, gives the selector and ends where
/// the text ends.
pub proof fn lemma_written_selector_is_read(selector: SelectorView)
    requires
        is_readable(selector),
    ensures
        selector_at(selector_text(selector), 0) == Ok::<(SelectorView, int), ParseError>(
            (selector, selector_text(selector).len() as int),
        ),
{
    let t = selector_text(selector);
    assert(t.subrange(0, t.len() as int) =~= t);
    lemma_ws_stays(t, t.len() as int);
    lemma_selector_is_read_as_written(t, 0, selector);
}

} // verus!
