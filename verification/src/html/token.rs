//! The tokens of a document, and the attributes that a tag carries.

use vstd::prelude::*;
use vstd::string::StringExecFns;
use crate::ordered::Placement;
use crate::ordered::compare_chars;
use crate::ordered::distinct_keys;
use crate::ordered::has_key;
use crate::ordered::is_strict_order;
use crate::ordered::lemma_one_rising_list;
use crate::ordered::lemma_pairs_map_insert;
use crate::ordered::lemma_pairs_map_keys;
use crate::ordered::lemma_pairs_map_update;
use crate::ordered::lemma_pairs_map_value;
use crate::ordered::lemma_text_before_asymmetric;
use crate::ordered::lemma_text_before_irreflexive;
use crate::ordered::lemma_text_before_total;
use crate::ordered::lemma_text_before_transitive;
use crate::ordered::pairs_map;
use crate::ordered::rises;
use crate::ordered::text_before;
use crate::text::chars_of;
use crate::text::same_text;

verus! {

/// A token of a document.
#[derive(Debug, PartialEq, Eq)]
pub enum Token {
    /// A run of text.
    TextToken(String),
    /// A tag that opens an element.
    StartTagToken(ElementData),
    /// A tag that closes the element of this name.
    EndTagToken(String),
    /// A tag of an element without content.
    SelfClosingTagToken(ElementData),
    /// A comment.
    CommentToken(String),
    /// The end of the document.
    Eof,
    /// A place at which no token starts.
    Illegal,
}

/// What a tag says of its element: the name and the attributes.
#[derive(Debug, PartialEq, Eq)]
pub struct ElementData {
    pub tag_name: String,
    pub attributes: Attributes,
}

/// The attributes of a tag: keys with their values. Every key stands once,
/// and the keys stand in the order of their texts.
#[derive(Debug, PartialEq, Eq)]
pub struct Attributes {
    entries: Vec<(String, String)>,
}

/// What a [`Token`] is.
pub enum TokenView {
    TextToken(Seq<char>),
    StartTagToken(ElementDataView),
    EndTagToken(Seq<char>),
    SelfClosingTagToken(ElementDataView),
    CommentToken(Seq<char>),
    Eof,
    Illegal,
}

/// What an [`ElementData`] is; the attributes are pairs of key and value
/// in the order of the keys.
pub struct ElementDataView {
    pub tag_name: Seq<char>,
    pub attributes: Seq<(Seq<char>, Seq<char>)>,
}

/// What each pair of a list of attributes is.
pub open spec fn pair_views(entries: Seq<(String, String)>) -> Seq<(Seq<char>, Seq<char>)> {
    entries.map_values(|e: (String, String)| (e.0@, e.1@))
}

/// Whether the keys of a list of pairs rise strictly.
pub open spec fn texts_rise(pairs: Seq<(Seq<char>, Seq<char>)>) -> bool {
    forall|i: int, j: int| 0 <= i < j < pairs.len() ==> text_before(pairs[i].0, pairs[j].0)
}

/// How many of the first `n` keys of `pairs` come before `key`, where the
/// keys rise: the place at which `key` stands or would stand.
pub open spec fn place_of(pairs: Seq<(Seq<char>, Seq<char>)>, key: Seq<char>, n: int) -> int
    decreases n,
{
    if n <= 0 || n > pairs.len() {
        0
    } else if text_before(pairs[n - 1].0, key) {
        place_of(pairs, key, n - 1) + 1
    } else {
        place_of(pairs, key, n - 1)
    }
}

/// The list `pairs` with `value` under `key`: in place of the value that
/// the key had, or else as a new pair at the place of the key.
pub open spec fn put(pairs: Seq<(Seq<char>, Seq<char>)>, key: Seq<char>, value: Seq<char>) -> Seq<
    (Seq<char>, Seq<char>),
> {
    let i = place_of(pairs, key, pairs.len() as int);
    if 0 <= i < pairs.len() && pairs[i].0 == key {
        pairs.update(i, (key, value))
    } else {
        pairs.insert(i, (key, value))
    }
}

/// The list that pairs give when they are put one after the other into
/// the empty list.
pub open spec fn put_all(pairs: Seq<(Seq<char>, Seq<char>)>, n: int) -> Seq<(Seq<char>, Seq<char>)>
    decreases n,
{
    if n <= 0 || n > pairs.len() {
        Seq::empty()
    } else {
        put(put_all(pairs, n - 1), pairs[n - 1].0, pairs[n - 1].1)
    }
}

/// Where the keys rise, the place of a key is the index before which all
/// keys come before it and from which on none does.
pub proof fn lemma_place_of(pairs: Seq<(Seq<char>, Seq<char>)>, key: Seq<char>, n: int)
    requires
        texts_rise(pairs),
        0 <= n <= pairs.len(),
    ensures
        0 <= place_of(pairs, key, n) <= n,
        forall|j: int| 0 <= j < place_of(pairs, key, n) ==> text_before(#[trigger] pairs[j].0, key),
        forall|j: int| place_of(pairs, key, n) <= j < n ==> !text_before(#[trigger] pairs[j].0, key),
    decreases n,
{
    if n > 0 {
        lemma_place_of(pairs, key, n - 1);
        let i = place_of(pairs, key, n - 1);
        if text_before(pairs[n - 1].0, key) {
            if i < n - 1 {
                assert(text_before(pairs[i].0, pairs[n - 1].0));
                lemma_text_before_transitive(pairs[i].0, pairs[n - 1].0, key, 0);
                assert(false);
            }
        }
    }
}

/// Putting a value under a key keeps the keys rising, and changes the map
/// that the list stands for by that key alone.
pub proof fn lemma_put(pairs: Seq<(Seq<char>, Seq<char>)>, key: Seq<char>, value: Seq<char>)
    requires
        texts_rise(pairs),
    ensures
        texts_rise(put(pairs, key, value)),
        pairs_map(put(pairs, key, value)) == pairs_map(pairs).insert(key, value),
{
    let n = pairs.len() as int;
    let i = place_of(pairs, key, n);
    lemma_place_of(pairs, key, n);
    lemma_texts_distinct(pairs);
    let after = put(pairs, key, value);
    if 0 <= i < pairs.len() && pairs[i].0 == key {
        lemma_pairs_map_update(pairs, i, value);
        assert forall|a: int, b: int| 0 <= a < b < after.len() implies text_before(
            after[a].0,
            after[b].0,
        ) by {
            assert(text_before(pairs[a].0, pairs[b].0));
        }
    } else {
        assert forall|j: int| 0 <= j < pairs.len() implies (#[trigger] pairs[j]).0 != key by {
            if j < i {
                lemma_text_before_irreflexive(key, 0);
            } else if j > i {
                assert(text_before(pairs[i].0, pairs[j].0));
                lemma_those_after(pairs, key, i, j);
            }
        }
        assert(!has_key(pairs, key));
        lemma_pairs_map_insert(pairs, i, key, value);
        assert forall|a: int, b: int| 0 <= a < b < after.len() implies text_before(
            after[a].0,
            after[b].0,
        ) by {
            let x = if a < i {
                a
            } else {
                a - 1
            };
            let y = if b < i {
                b
            } else {
                b - 1
            };
            if a == i {
                lemma_those_after(pairs, key, i, y);
            } else if b == i {
                assert(text_before(pairs[x].0, key));
            } else {
                assert(text_before(pairs[x].0, pairs[y].0));
            }
        }
    }
}

/// A key that is not in a list, and before which the key at `i` does not
/// come, comes before every key from `i` on.
pub proof fn lemma_those_after(pairs: Seq<(Seq<char>, Seq<char>)>, key: Seq<char>, i: int, j: int)
    requires
        texts_rise(pairs),
        0 <= i <= j < pairs.len(),
        !text_before(pairs[i].0, key),
        pairs[i].0 != key,
    ensures
        text_before(key, pairs[j].0),
        pairs[j].0 != key,
{
    assert(pairs[i].0.take(0) =~= key.take(0));
    lemma_text_before_total(pairs[i].0, key, 0);
    if j > i {
        assert(text_before(pairs[i].0, pairs[j].0));
        lemma_text_before_transitive(key, pairs[i].0, pairs[j].0, 0);
    }
    lemma_text_before_irreflexive(key, 0);
}

/// A list whose keys rise strictly holds no key twice.
pub proof fn lemma_texts_distinct(pairs: Seq<(Seq<char>, Seq<char>)>)
    requires
        texts_rise(pairs),
    ensures
        distinct_keys(pairs),
{
    assert forall|i: int, j: int| 0 <= i < j < pairs.len() implies pairs[i].0 != pairs[j].0 by {
        assert(text_before(pairs[i].0, pairs[j].0));
        lemma_text_before_irreflexive(pairs[i].0, 0);
    }
}

/// Attributes are kept by one list only: two lists whose keys rise, and
/// which hold the same values under the same keys, are the same list.
pub proof fn lemma_one_list_of_pairs(a: Seq<(Seq<char>, Seq<char>)>, b: Seq<(Seq<char>, Seq<char>)>)
    requires
        texts_rise(a),
        texts_rise(b),
        pairs_map(a) == pairs_map(b),
    ensures
        a == b,
{
    let before = |x: Seq<char>, y: Seq<char>| text_before(x, y);
    assert(is_strict_order(before)) by {
        assert forall|x: Seq<char>| !#[trigger] before(x, x) by {
            lemma_text_before_irreflexive(x, 0);
        }
        assert forall|x: Seq<char>, y: Seq<char>, z: Seq<char>| #[trigger]
            before(x, y) && #[trigger] before(y, z) implies before(x, z) by {
            lemma_text_before_transitive(x, y, z, 0);
        }
    }
    assert(rises(a, before)) by {
        assert forall|i: int, j: int| 0 <= i < j < a.len() implies before(a[i].0, a[j].0) by {
            assert(text_before(a[i].0, a[j].0));
        }
    }
    assert(rises(b, before)) by {
        assert forall|i: int, j: int| 0 <= i < j < b.len() implies before(b[i].0, b[j].0) by {
            assert(text_before(b[i].0, b[j].0));
        }
    }
    lemma_one_rising_list(a, b, before);
}

impl View for Attributes {
    type V = Seq<(Seq<char>, Seq<char>)>;

    closed spec fn view(&self) -> Seq<(Seq<char>, Seq<char>)> {
        pair_views(self.entries@)
    }
}

impl View for ElementData {
    type V = ElementDataView;

    open spec fn view(&self) -> ElementDataView {
        ElementDataView { tag_name: self.tag_name@, attributes: self.attributes@ }
    }
}

impl View for Token {
    type V = TokenView;

    open spec fn view(&self) -> TokenView {
        match self {
            Token::TextToken(text) => TokenView::TextToken(text@),
            Token::StartTagToken(element) => TokenView::StartTagToken(element@),
            Token::EndTagToken(name) => TokenView::EndTagToken(name@),
            Token::SelfClosingTagToken(element) => TokenView::SelfClosingTagToken(element@),
            Token::CommentToken(text) => TokenView::CommentToken(text@),
            Token::Eof => TokenView::Eof,
            Token::Illegal => TokenView::Illegal,
        }
    }
}

impl Attributes {
    #[verifier::type_invariant]
    spec fn sorted(self) -> bool {
        texts_rise(pair_views(self.entries@))
    }

    /// No attributes.
    pub fn new() -> (attributes: Self)
        ensures
            attributes@ == Seq::<(Seq<char>, Seq<char>)>::empty(),
    {
        let attributes = Attributes { entries: Vec::new() };
        proof {
            assert(pair_views(attributes.entries@) =~= Seq::empty());
        }
        attributes
    }

    /// How many attributes there are.
    pub fn len(&self) -> (n: usize)
        ensures
            n == self@.len(),
            texts_rise(self@),
    {
        proof {
            use_type_invariant(self);
        }
        self.entries.len()
    }

    /// Whether there are no attributes.
    pub fn is_empty(&self) -> (b: bool)
        ensures
            b == (self@.len() == 0),
    {
        self.entries.len() == 0
    }

    /// The key at `i`, in the order of the keys.
    pub fn key(&self, i: usize) -> (key: &str)
        requires
            i < self@.len(),
        ensures
            key@ == self@[i as int].0,
    {
        self.entries[i].0.as_str()
    }

    /// The value at `i`, in the order of the keys.
    pub fn value(&self, i: usize) -> (value: &str)
        requires
            i < self@.len(),
        ensures
            value@ == self@[i as int].1,
    {
        self.entries[i].1.as_str()
    }

    /// The value of `key`, if it has one.
    pub fn get(&self, key: &str) -> (value: Option<&str>)
        ensures
            match value {
                Some(text) => pairs_map(self@).contains_key(key@) && pairs_map(self@)[key@]
                    == text@,
                None => !pairs_map(self@).contains_key(key@),
            },
    {
        proof {
            use_type_invariant(self);
            lemma_texts_distinct(self@);
        }
        let ghost views = pair_views(self.entries@);
        let mut i: usize = 0;
        while i < self.entries.len()
            invariant
                views == pair_views(self.entries@),
                distinct_keys(views),
                i <= self.entries.len(),
                forall|j: int| 0 <= j < i ==> (#[trigger] views[j]).0 != key@,
            decreases self.entries.len() - i,
        {
            if same_text(self.entries[i].0.as_str(), key) {
                proof {
                    lemma_pairs_map_value(views, i as int);
                }
                return Some(self.entries[i].1.as_str());
            }
            i += 1;
        }
        proof {
            lemma_pairs_map_keys(views, key@);
        }
        None
    }

    /// Gives `value` to `key`, in place of the value that `key` had, if it
    /// had one.
    pub fn insert(&mut self, key: String, value: String)
        ensures
            final(self)@ == put(old(self)@, key@, value@),
    {
        proof {
            use_type_invariant(&*self);
        }
        let ghost before = pair_views(self.entries@);
        let wanted = chars_of(key.as_str());
        let mut i: usize = 0;
        let mut found = false;
        while i < self.entries.len()
            invariant_except_break
                !found,
            invariant
                self.entries == old(self).entries,
                before == pair_views(self.entries@),
                texts_rise(before),
                wanted@ == key@,
                i <= self.entries.len(),
                i == place_of(before, key@, i as int),
            ensures
                i <= self.entries.len(),
                i < self.entries.len() ==> !text_before(before[i as int].0, key@),
                i == place_of(before, key@, i as int),
                found == (i < self.entries.len() && before[i as int].0 == key@),
            decreases self.entries.len() - i,
        {
            let here = chars_of(self.entries[i].0.as_str());
            match compare_chars(&here, &wanted) {
                Placement::Before => {
                    i += 1;
                },
                Placement::Same => {
                    proof {
                        lemma_text_before_irreflexive(key@, 0);
                    }
                    found = true;
                    break ;
                },
                Placement::After => {
                    proof {
                        lemma_text_before_asymmetric(key@, before[i as int].0, 0);
                    }
                    break ;
                },
            }
        }
        proof {
            lemma_place_rest(before, key@, i as int, before.len() as int);
            lemma_put(before, key@, value@);
        }
        let mut entries: Vec<(String, String)> = Vec::new();
        std::mem::swap(&mut entries, &mut self.entries);
        if found {
            let _ = entries.remove(i);
        }
        entries.insert(i, (key, value));
        proof {
            assert(pair_views(entries@) =~= put(before, key@, value@));
        }
        self.entries = entries;
    }

    /// The attributes that a list of pairs gives: each key with the value
    /// of the last pair that holds it.
    pub fn from_iter(pairs: Vec<(String, String)>) -> (attributes: Self)
        ensures
            attributes@ == put_all(pair_views(pairs@), pairs@.len() as int),
    {
        let mut attributes = Attributes::new();
        let ghost all = pair_views(pairs@);
        for pair in it: pairs
            invariant
                it.seq().len() == all.len(),
                forall|j: int|
                    0 <= j < all.len() ==> ((#[trigger] it.seq()[j]).0@, it.seq()[j].1@) == all[j],
                attributes@ == put_all(all, it.index() as int),
        {
            let (key, value) = pair;
            attributes.insert(key, value);
        }
        attributes
    }
}

/// Where no key from `i` up to `n` comes before `key`, the place of the
/// key among the first `n` is its place among the first `i`.
pub proof fn lemma_place_rest(pairs: Seq<(Seq<char>, Seq<char>)>, key: Seq<char>, i: int, n: int)
    requires
        texts_rise(pairs),
        0 <= i <= n <= pairs.len(),
        i < pairs.len() ==> !text_before(pairs[i].0, key),
    ensures
        place_of(pairs, key, n) == place_of(pairs, key, i),
    decreases n - i,
{
    if i < n {
        lemma_place_rest(pairs, key, i, n - 1);
        if text_before(pairs[n - 1].0, key) {
            if i < n - 1 {
                assert(text_before(pairs[i].0, pairs[n - 1].0));
                lemma_text_before_transitive(pairs[i].0, pairs[n - 1].0, key, 0);
            }
        }
    }
}

impl ElementData {
    /// The data of a tag with this name and these attributes.
    pub fn new(tag_name: String, attributes: Attributes) -> (element: Self)
        ensures
            element.tag_name == tag_name,
            element.attributes == attributes,
    {
        ElementData { tag_name, attributes }
    }

    /// The value of the attribute `id`, if the tag has one.
    pub fn get_id(&self) -> (id: Option<&str>)
        ensures
            match id {
                Some(text) => pairs_map(self@.attributes).contains_key("id"@) && pairs_map(
                    self@.attributes,
                )["id"@] == text@,
                None => !pairs_map(self@.attributes).contains_key("id"@),
            },
    {
        self.attributes.get("id")
    }

    /// The value of the attribute `class`, if the tag has one.
    pub fn get_classes(&self) -> (classes: Option<&str>)
        ensures
            match classes {
                Some(text) => pairs_map(self@.attributes).contains_key("class"@) && pairs_map(
                    self@.attributes,
                )["class"@] == text@,
                None => !pairs_map(self@.attributes).contains_key("class"@),
            },
    {
        self.attributes.get("class")
    }
}

/// The first `n` attributes as text: each one after a space, as a key, an
/// equals sign and the value between double quotes.
pub open spec fn attributes_text(attributes: Seq<(Seq<char>, Seq<char>)>, n: int) -> Seq<char>
    decreases n,
{
    if n <= 0 {
        Seq::empty()
    } else {
        attributes_text(attributes, n - 1) + " "@ + attributes[n - 1].0 + "=\""@ + attributes[n
            - 1].1 + "\""@
    }
}

/// What stands inside a tag, as text: the name and the attributes.
pub open spec fn element_text(element: ElementDataView) -> Seq<char> {
    element.tag_name + attributes_text(element.attributes, element.attributes.len() as int)
}

/// A token as text, as it is written in a document.
pub open spec fn token_text(token: TokenView) -> Seq<char> {
    match token {
        TokenView::TextToken(text) => text,
        TokenView::StartTagToken(element) => "<"@ + element_text(element) + ">"@,
        TokenView::EndTagToken(name) => "</"@ + name + ">"@,
        TokenView::SelfClosingTagToken(element) => "<"@ + element_text(element) + " />"@,
        TokenView::CommentToken(text) => "<!-- "@ + text + " -->"@,
        TokenView::Eof => Seq::empty(),
        TokenView::Illegal => Seq::empty(),
    }
}

impl Token {
    /// What stands inside a tag, as text: the name and the attributes.
    pub fn element_to_string(element: &ElementData) -> (text: String)
        ensures
            text@ == element_text(element@),
    {
        let mut text = element.tag_name.clone();
        let ghost head = text@;
        let count = element.attributes.len();
        let mut i: usize = 0;
        while i < count
            invariant
                count == element@.attributes.len(),
                i <= count,
                text@ == head + attributes_text(element@.attributes, i as int),
            decreases count - i,
        {
            let ghost before = attributes_text(element@.attributes, i as int);
            text.append(" ");
            text.append(element.attributes.key(i));
            text.append("=\"");
            text.append(element.attributes.value(i));
            text.append("\"");
            proof {
                assert(text@ =~= head + (before + " "@ + element@.attributes[i as int].0 + "=\""@
                    + element@.attributes[i as int].1 + "\""@));
            }
            i += 1;
        }
        text
    }

    /// The token as text, as it is written in a document.
    pub fn to_string(&self) -> (text: String)
        ensures
            text@ == token_text(self@),
    {
        match self {
            Token::TextToken(s) => s.clone(),
            Token::StartTagToken(element) => {
                let mut text = "<".to_owned();
                text.append(Self::element_to_string(element).as_str());
                text.append(">");
                text
            },
            Token::EndTagToken(tag_name) => {
                let mut text = "</".to_owned();
                text.append(tag_name.as_str());
                text.append(">");
                text
            },
            Token::SelfClosingTagToken(element) => {
                let mut text = "<".to_owned();
                text.append(Self::element_to_string(element).as_str());
                text.append(" />");
                text
            },
            Token::CommentToken(s) => {
                let mut text = "<!-- ".to_owned();
                text.append(s.as_str());
                text.append(" -->");
                text
            },
            Token::Eof => String::new(),
            Token::Illegal => String::new(),
        }
    }

    /// Whether two tokens are the same.
    pub fn same_as(&self, other: &Token) -> (b: bool)
        ensures
            b == (self@ == other@),
    {
        match (self, other) {
            (Token::TextToken(a), Token::TextToken(b)) => same_text(a.as_str(), b.as_str()),
            (Token::StartTagToken(a), Token::StartTagToken(b)) => a.same_as(b),
            (Token::EndTagToken(a), Token::EndTagToken(b)) => same_text(a.as_str(), b.as_str()),
            (Token::SelfClosingTagToken(a), Token::SelfClosingTagToken(b)) => a.same_as(b),
            (Token::CommentToken(a), Token::CommentToken(b)) => same_text(a.as_str(), b.as_str()),
            (Token::Eof, Token::Eof) => true,
            (Token::Illegal, Token::Illegal) => true,
            _ => false,
        }
    }
}

impl ElementData {
    /// Whether two tags say the same of their elements.
    pub fn same_as(&self, other: &ElementData) -> (b: bool)
        ensures
            b == (self@ == other@),
    {
        if !same_text(self.tag_name.as_str(), other.tag_name.as_str()) {
            return false;
        }
        let n = self.attributes.len();
        if n != other.attributes.len() {
            return false;
        }
        let mut i: usize = 0;
        while i < n
            invariant
                n == self@.attributes.len(),
                n == other@.attributes.len(),
                i <= n,
                forall|j: int| 0 <= j < i ==> self@.attributes[j] == other@.attributes[j],
            decreases n - i,
        {
            if !same_text(self.attributes.key(i), other.attributes.key(i)) || !same_text(
                self.attributes.value(i),
                other.attributes.value(i),
            ) {
                return false;
            }
            i += 1;
        }
        proof {
            assert(self@.attributes =~= other@.attributes);
        }
        true
    }
}

impl Clone for Attributes {
    fn clone(&self) -> (copy: Self)
        ensures
            copy@ == self@,
    {
        proof {
            use_type_invariant(self);
        }
        let mut entries: Vec<(String, String)> = Vec::new();
        let mut i: usize = 0;
        while i < self.entries.len()
            invariant
                i <= self.entries.len(),
                pair_views(entries@) == pair_views(self.entries@).take(i as int),
            decreases self.entries.len() - i,
        {
            let ghost before = pair_views(entries@);
            entries.push((self.entries[i].0.clone(), self.entries[i].1.clone()));
            proof {
                let pair = (self.entries@[i as int].0@, self.entries@[i as int].1@);
                assert(pair_views(entries@) =~= before.push(pair));
                assert(pair_views(self.entries@).take(i + 1) =~= pair_views(self.entries@).take(
                    i as int,
                ).push(pair));
            }
            i += 1;
        }
        proof {
            assert(pair_views(self.entries@).take(i as int) =~= pair_views(self.entries@));
        }
        Attributes { entries }
    }
}

impl Clone for ElementData {
    fn clone(&self) -> (copy: Self)
        ensures
            copy@ == self@,
    {
        ElementData { tag_name: self.tag_name.clone(), attributes: self.attributes.clone() }
    }
}

} // verus!
