//! The tree builder: from the tokens of a document to its trees.
//!
//! A start tag opens an element, which holds the trees of the tokens up to
//! the end tag of the same name. Any other end tag, and the end of the
//! tokens inside an element, is an error.

use vstd::prelude::*;
use vstd::string::StringExecFns;
use crate::error::ErrorKind;
use crate::error::Expected;
use crate::error::Found;
use crate::error::ParseError;
use crate::html::lexer::token_views;
use crate::html::token::ElementData;
use crate::html::token::ElementDataView;
use crate::html::token::Token;
use crate::html::token::TokenView;
use crate::html::token::element_text;
use crate::text::spaces;

verus! {

/// What a node of a tree is: a text, an element or a comment.
#[derive(Debug, PartialEq, Eq)]
pub enum NodeType {
    Text(String),
    Element(ElementData),
    Comment(String),
}

/// A node of a tree, with the nodes inside it.
#[derive(Debug, PartialEq, Eq)]
pub struct Node {
    pub node_type: NodeType,
    pub children: Vec<Node>,
}

/// What a [`NodeType`] is.
pub enum NodeTypeView {
    Text(Seq<char>),
    Element(ElementDataView),
    Comment(Seq<char>),
}

/// What a [`Node`] is.
pub struct TreeView {
    pub node_type: NodeTypeView,
    pub children: Seq<TreeView>,
}

impl View for NodeType {
    type V = NodeTypeView;

    open spec fn view(&self) -> NodeTypeView {
        match self {
            NodeType::Text(text) => NodeTypeView::Text(text@),
            NodeType::Element(element) => NodeTypeView::Element(element@),
            NodeType::Comment(text) => NodeTypeView::Comment(text@),
        }
    }
}

impl Node {
    /// What the node is.
    pub open spec fn model(&self) -> TreeView
        decreases self,
    {
        TreeView {
            node_type: self.node_type@,
            children: Seq::new(
                self.children@.len(),
                |i: int|
                    if 0 <= i < self.children@.len() {
                        self.children@[i].model()
                    } else {
                        TreeView {
                            node_type: NodeTypeView::Text(Seq::empty()),
                            children: Seq::empty(),
                        }
                    },
            ),
        }
    }
}

impl View for Node {
    type V = TreeView;

    open spec fn view(&self) -> TreeView {
        self.model()
    }
}

/// What each node of a sequence is.
pub open spec fn tree_views(nodes: Seq<Node>) -> Seq<TreeView> {
    Seq::new(nodes.len(), |i: int| nodes[i]@)
}

/// The nodes inside a node are what its children are, one for one.
pub proof fn lemma_tree_children(node: Node)
    ensures
        node@.children == tree_views(node.children@),
{
    assert(node@.children =~= tree_views(node.children@));
}

/// The error at the token `p`.
pub open spec fn token_error(kind: ErrorKind, p: int, expected: Expected, found: Found) -> ParseError {
    ParseError { kind, offset: p as usize, expected, found }
}

/// What stands at `p` in `tokens`.
pub open spec fn found_token(tokens: Seq<TokenView>, p: int) -> Found {
    if 0 <= p < tokens.len() {
        match tokens[p] {
            TokenView::EndTagToken(_) => Found::EndTagToken,
            TokenView::Illegal => Found::IllegalToken,
            TokenView::Eof => Found::EofToken,
            _ => Found::OtherToken,
        }
    } else {
        Found::EndOfInput
    }
}

/// The tree that starts with the token at `p`, and the position after it.
/// A text, a comment and a tag without content are trees of one node; a
/// start tag holds the trees up to its end tag.
pub open spec fn tree_at(tokens: Seq<TokenView>, p: int) -> Result<(TreeView, int), ParseError>
    decreases tokens.len() - p, 1int,
{
    if !(0 <= p < tokens.len()) {
        Err(token_error(ErrorKind::StructuralParseError, p, Expected::Node, Found::EndOfInput))
    } else {
        match tokens[p] {
            TokenView::TextToken(text) => Ok(
                (TreeView { node_type: NodeTypeView::Text(text), children: Seq::empty() }, p + 1),
            ),
            TokenView::CommentToken(text) => Ok(
                (TreeView { node_type: NodeTypeView::Comment(text), children: Seq::empty() }, p + 1),
            ),
            TokenView::SelfClosingTagToken(element) => Ok(
                (
                    TreeView { node_type: NodeTypeView::Element(element), children: Seq::empty() },
                    p + 1,
                ),
            ),
            TokenView::StartTagToken(element) => match trees_until(
                tokens,
                p + 1,
                element.tag_name,
                Seq::empty(),
            ) {
                Ok((children, n)) => Ok(
                    (TreeView { node_type: NodeTypeView::Element(element), children }, n),
                ),
                Err(e) => Err(e),
            },
            TokenView::Illegal => Err(
                token_error(ErrorKind::LexError, p, Expected::Node, Found::IllegalToken),
            ),
            _ => Err(
                token_error(
                    ErrorKind::StructuralParseError,
                    p,
                    Expected::Node,
                    found_token(tokens, p),
                ),
            ),
        }
    }
}

/// The trees from `p` on, after the trees `before`, up to the end tag
/// named `name`; the position after is that after the end tag.
pub open spec fn trees_until(
    tokens: Seq<TokenView>,
    p: int,
    name: Seq<char>,
    before: Seq<TreeView>,
) -> Result<(Seq<TreeView>, int), ParseError>
    decreases tokens.len() - p, 2int,
{
    if !(0 <= p < tokens.len()) {
        Err(token_error(ErrorKind::StructuralParseError, p, Expected::EndTag, Found::EndOfInput))
    } else if tokens[p] == TokenView::EndTagToken(name) {
        Ok((before, p + 1))
    } else {
        match tree_at(tokens, p) {
            Ok((tree, n)) => if p < n <= tokens.len() {
                trees_until(tokens, n, name, before.push(tree))
            } else {
                Err(
                    token_error(
                        ErrorKind::StructuralParseError,
                        p,
                        Expected::EndTag,
                        Found::EndOfInput,
                    ),
                )
            },
            Err(e) => Err(e),
        }
    }
}

/// A tree holds at least one token, and ends inside the tokens.
pub proof fn lemma_tree_advances(tokens: Seq<TokenView>, p: int)
    ensures
        tree_at(tokens, p) matches Ok((_, n)) ==> 0 <= p < n <= tokens.len(),
    decreases tokens.len() - p, 1int,
{
    if 0 <= p < tokens.len() {
        match tokens[p] {
            TokenView::StartTagToken(element) => {
                lemma_trees_advance(tokens, p + 1, element.tag_name, Seq::empty());
            },
            _ => {},
        }
    }
}

/// The trees up to an end tag end inside the tokens, after their start.
pub proof fn lemma_trees_advance(
    tokens: Seq<TokenView>,
    p: int,
    name: Seq<char>,
    before: Seq<TreeView>,
)
    ensures
        trees_until(tokens, p, name, before) matches Ok((_, n)) ==> 0 <= p < n <= tokens.len(),
    decreases tokens.len() - p, 2int,
{
    if 0 <= p < tokens.len() && tokens[p] != TokenView::EndTagToken(name) {
        lemma_tree_advances(tokens, p);
        match tree_at(tokens, p) {
            Ok((tree, n)) => {
                if p < n <= tokens.len() {
                    lemma_trees_advance(tokens, n, name, before.push(tree));
                }
            },
            Err(_) => {},
        }
    }
}

/// The trees from `p` on, after the trees `before`, up to the token that
/// ends the document, which has to be there.
pub open spec fn document_at(tokens: Seq<TokenView>, p: int, before: Seq<TreeView>) -> Result<
    Seq<TreeView>,
    ParseError,
>
    decreases tokens.len() - p,
{
    if 0 <= p < tokens.len() && tokens[p] is Eof {
        Ok(before)
    } else {
        match tree_at(tokens, p) {
            Ok((tree, n)) => {
                proof {
                    lemma_tree_advances(tokens, p);
                }
                document_at(tokens, n, before.push(tree))
            },
            Err(e) => Err(e),
        }
    }
}

/// The first `n` of `trees` as text, each between two line breaks and set
/// in by `indent` spaces.
pub open spec fn trees_text(trees: Seq<TreeView>, n: int, indent: nat) -> Seq<char>
    decreases trees, n,
{
    if n <= 0 || n > trees.len() {
        Seq::empty()
    } else {
        trees_text(trees, n - 1, indent) + "\n"@ + tree_text(trees[n - 1], indent) + "\n"@
    }
}

/// A tree as text, set in by `indent` spaces: a text as it is, a comment
/// between its marks, and an element as its tag, the trees inside it set
/// in by two more spaces, and the tag again with a `/` behind it.
pub open spec fn tree_text(tree: TreeView, indent: nat) -> Seq<char>
    decreases tree, 0int,
{
    let inner = trees_text(tree.children, tree.children.len() as int, indent + 2);
    match tree.node_type {
        NodeTypeView::Element(element) => spaces(indent) + "<"@ + element_text(element) + ">"@
            + inner + spaces(indent) + "<"@ + element_text(element) + "/>"@,
        NodeTypeView::Text(text) => spaces(indent) + text + inner,
        NodeTypeView::Comment(text) => spaces(indent) + "<!--"@ + text + "-->"@ + inner,
    }
}

impl Node {
    /// A node of this kind with nothing inside it.
    pub fn new(node_type: NodeType) -> (node: Self)
        ensures
            node.node_type == node_type,
            node@ == (TreeView { node_type: node_type@, children: Seq::empty() }),
    {
        let node = Node { node_type, children: Vec::new() };
        proof {
            lemma_tree_children(node);
            assert(tree_views(node.children@) =~= Seq::empty());
        }
        node
    }

    /// The tree as text, set in by `indent_size` spaces.
    pub fn to_string(&self, indent_size: usize) -> (text: String)
        requires
            indent_size + 2 * tree_depth(self@) <= usize::MAX,
        ensures
            text@ == tree_text(self@, indent_size as nat),
        decreases self,
    {
        proof {
            lemma_tree_children(*self);
        }
        let mut indent = String::new();
        let mut n: usize = 0;
        while n < indent_size
            invariant
                n <= indent_size,
                indent@ == spaces(n as nat),
            decreases indent_size - n,
        {
            indent.push(' ');
            proof {
                assert(spaces(n as nat).push(' ') =~= spaces((n + 1) as nat));
            }
            n += 1;
        }
        let mut output = indent.clone();
        match &self.node_type {
            NodeType::Element(v) => {
                output.append("<");
                output.append(Token::element_to_string(v).as_str());
                output.append(">");
            },
            NodeType::Text(v) => {
                output.append(v.as_str());
            },
            NodeType::Comment(v) => {
                output.append("<!--");
                output.append(v.as_str());
                output.append("-->");
            },
        }
        let ghost head = output@;
        let ghost trees = self@.children;
        let mut i: usize = 0;
        while i < self.children.len()
            invariant
                i <= self.children.len(),
                trees == tree_views(self.children@),
                trees == self@.children,
                indent_size + 2 * tree_depth(self@) <= usize::MAX,
                output@ == head + trees_text(trees, i as int, (indent_size + 2) as nat),
            decreases self.children.len() - i,
        {
            let ghost before = trees_text(trees, i as int, (indent_size + 2) as nat);
            proof {
                assert(trees[i as int] == self.children@[i as int]@);
                lemma_depth_of_child(self@, i as int);
            }
            output.push('\n');
            output.append(self.children[i].to_string(indent_size + 2).as_str());
            output.push('\n');
            proof {
                reveal_strlit("\n");
                assert("\n"@ =~= seq!['\n']);
                assert(output@ =~= head + (before + "\n"@ + tree_text(
                    trees[i as int],
                    (indent_size + 2) as nat,
                ) + "\n"@));
            }
            i += 1;
        }
        match &self.node_type {
            NodeType::Element(v) => {
                output.append(indent.as_str());
                output.append("<");
                output.append(Token::element_to_string(v).as_str());
                output.append("/>");
            },
            _ => {},
        }
        proof {
            assert(output@ =~= tree_text(self@, indent_size as nat));
        }
        output
    }
}

/// How deep a tree is: how many nodes stand on its longest way down.
pub open spec fn tree_depth(tree: TreeView) -> nat
    decreases tree, 0int,
{
    1 + deepest(tree.children, tree.children.len() as int)
}

/// The depth of the deepest of the first `n` of `trees`.
pub open spec fn deepest(trees: Seq<TreeView>, n: int) -> nat
    decreases trees, n,
{
    if n <= 0 || n > trees.len() {
        0
    } else {
        let before = deepest(trees, n - 1);
        let last = tree_depth(trees[n - 1]);
        if last > before {
            last
        } else {
            before
        }
    }
}

/// A tree inside another is less deep than that one.
pub proof fn lemma_depth_of_child(tree: TreeView, i: int)
    requires
        0 <= i < tree.children.len(),
    ensures
        tree_depth(tree.children[i]) < tree_depth(tree),
{
    lemma_deepest(tree.children, tree.children.len() as int, i);
}

/// None of the first `n` trees is deeper than the deepest of them.
pub proof fn lemma_deepest(trees: Seq<TreeView>, n: int, i: int)
    requires
        0 <= i < n <= trees.len(),
    ensures
        tree_depth(trees[i]) <= deepest(trees, n),
    decreases n,
{
    if i < n - 1 {
        lemma_deepest(trees, n - 1, i);
    }
}

/// A builder of trees: tokens, and how many of them have been read.
#[derive(Debug)]
pub struct DOMParser<'a> {
    tokens: &'a [Token],
    pos: usize,
}

impl<'a> DOMParser<'a> {
    #[verifier::type_invariant]
    spec fn in_bounds(self) -> bool {
        self.pos <= self.tokens@.len()
    }

    /// The tokens that are read.
    pub closed spec fn tokens(&self) -> Seq<TokenView> {
        token_views(self.tokens@)
    }

    /// How many tokens have been read.
    pub closed spec fn offset(&self) -> int {
        self.pos as int
    }

    /// A builder at the start of `tokens`.
    pub fn new(tokens: &'a [Token]) -> (parser: Self)
        ensures
            parser.tokens() == token_views(tokens@),
            parser.offset() == 0,
    {
        DOMParser { tokens, pos: 0 }
    }

    /// The error at the place of the builder.
    fn error_here(&self, kind: ErrorKind, expected: Expected) -> (e: ParseError)
        ensures
            e == token_error(kind, self.offset(), expected, found_token(self.tokens(), self.offset())),
            0 <= self.offset() <= self.tokens().len(),
    {
        proof {
            use_type_invariant(self);
        }
        let found = if self.pos < self.tokens.len() {
            match &self.tokens[self.pos] {
                Token::EndTagToken(_) => Found::EndTagToken,
                Token::Illegal => Found::IllegalToken,
                Token::Eof => Found::EofToken,
                _ => Found::OtherToken,
            }
        } else {
            Found::EndOfInput
        };
        ParseError { kind, offset: self.pos, expected, found }
    }

    /// Whether the next token is `token`.
    pub fn next_token_is(&self, token: &Token) -> (b: bool)
        ensures
            b == (0 <= self.offset() < self.tokens().len() && self.tokens()[self.offset()]
                == token@),
    {
        proof {
            use_type_invariant(self);
        }
        if self.pos < self.tokens.len() {
            self.tokens[self.pos].same_as(token)
        } else {
            false
        }
    }

    /// The tree of a text.
    pub fn parse_text(&self, s: &str) -> (node: Node)
        ensures
            node@ == (TreeView { node_type: NodeTypeView::Text(s@), children: Seq::empty() }),
    {
        Node::new(NodeType::Text(s.to_owned()))
    }

    /// The tree of a comment.
    pub fn parse_comment(&self, comment: &str) -> (node: Node)
        ensures
            node@ == (TreeView { node_type: NodeTypeView::Comment(comment@), children: Seq::empty() }),
    {
        Node::new(NodeType::Comment(comment.to_owned()))
    }

    /// The tree of a tag without content.
    pub fn parse_self_closing_tag(&self, element_data: &ElementData) -> (node: Node)
        ensures
            node@ == (TreeView {
                node_type: NodeTypeView::Element(element_data@),
                children: Seq::empty(),
            }),
    {
        Node::new(NodeType::Element(element_data.clone()))
    }

    /// The tree of a start tag that has just been read: the element with
    /// the trees up to its end tag.
    pub fn parse_start_tag(&mut self, element_data: &ElementData) -> (r: Result<Node, ParseError>)
        ensures
            final(self).tokens() == old(self).tokens(),
            0 <= old(self).offset() <= final(self).offset() <= old(self).tokens().len(),
            match trees_until(
                old(self).tokens(),
                old(self).offset(),
                element_data@.tag_name,
                Seq::empty(),
            ) {
                Ok((children, n)) => r matches Ok(node) && node@ == (TreeView {
                    node_type: NodeTypeView::Element(element_data@),
                    children,
                }) && final(self).offset() == n,
                Err(e) => r matches Err(x) && x == e,
            },
        decreases old(self).tokens().len() - old(self).offset(), 2int,
    {
        proof {
            use_type_invariant(&*self);
        }
        let ghost tokens = self.tokens();
        let ghost start = self.offset();
        let ghost name = element_data@.tag_name;
        let end = Token::EndTagToken(element_data.tag_name.clone());
        let mut children: Vec<Node> = Vec::new();
        proof {
            assert(tree_views(children@) =~= Seq::empty());
        }
        loop
            invariant_except_break
                trees_until(tokens, start, name, Seq::empty()) == trees_until(
                    tokens,
                    self.offset(),
                    name,
                    tree_views(children@),
                ),
            invariant
                self.tokens() == tokens,
                tokens == old(self).tokens(),
                start == old(self).offset(),
                name == element_data@.tag_name,
                end@ == TokenView::EndTagToken(name),
                0 <= start <= self.offset() <= tokens.len(),
            ensures
                trees_until(tokens, start, name, Seq::empty()) == Ok::<
                    (Seq<TreeView>, int),
                    ParseError,
                >((tree_views(children@), self.offset())),
            decreases tokens.len() - self.offset(),
        {
            let ghost p = self.offset();
            let ghost before = tree_views(children@);
            proof {
                use_type_invariant(&*self);
                lemma_tree_advances(tokens, p);
            }
            if self.pos >= self.tokens.len() {
                return Err(self.error_here(ErrorKind::StructuralParseError, Expected::EndTag));
            }
            if self.next_token_is(&end) {
                self.pos = self.pos + 1;
                break ;
            }
            match self.parse_node() {
                Ok(child) => {
                    children.push(child);
                    proof {
                        assert(tree_views(children@) =~= before.push(child@));
                    }
                },
                Err(e) => {
                    return Err(e);
                },
            }
        }
        let node = Node { node_type: NodeType::Element(element_data.clone()), children };
        proof {
            lemma_tree_children(node);
        }
        Ok(node)
    }

    /// The tree that starts with the next token.
    pub fn parse_node(&mut self) -> (r: Result<Node, ParseError>)
        ensures
            final(self).tokens() == old(self).tokens(),
            0 <= old(self).offset() <= final(self).offset() <= old(self).tokens().len(),
            match tree_at(old(self).tokens(), old(self).offset()) {
                Ok((tree, n)) => r matches Ok(node) && node@ == tree && final(self).offset() == n,
                Err(e) => r matches Err(x) && x == e,
            },
        decreases old(self).tokens().len() - old(self).offset(), 1int,
    {
        proof {
            use_type_invariant(&*self);
        }
        if self.pos >= self.tokens.len() {
            return Err(self.error_here(ErrorKind::StructuralParseError, Expected::Node));
        }
        let tokens: &'a [Token] = self.tokens;
        let token = &tokens[self.pos];
        match token {
            Token::TextToken(s) => {
                self.pos = self.pos + 1;
                Ok(self.parse_text(s.as_str()))
            },
            Token::StartTagToken(e) => {
                self.pos = self.pos + 1;
                self.parse_start_tag(e)
            },
            Token::SelfClosingTagToken(e) => {
                self.pos = self.pos + 1;
                Ok(self.parse_self_closing_tag(e))
            },
            Token::CommentToken(s) => {
                self.pos = self.pos + 1;
                Ok(self.parse_comment(s.as_str()))
            },
            Token::Illegal => Err(self.error_here(ErrorKind::LexError, Expected::Node)),
            _ => Err(self.error_here(ErrorKind::StructuralParseError, Expected::Node)),
        }
    }

    /// The trees of a document: all trees up to the token that ends the
    /// document.
    pub fn parse(&mut self) -> (r: Result<Vec<Node>, ParseError>)
        ensures
            final(self).tokens() == old(self).tokens(),
            match document_at(old(self).tokens(), old(self).offset(), Seq::empty()) {
                Ok(trees) => r matches Ok(dom) && tree_views(dom@) == trees,
                Err(e) => r matches Err(x) && x == e,
            },
    {
        proof {
            use_type_invariant(&*self);
        }
        let ghost tokens = self.tokens();
        let ghost start = self.offset();
        let mut dom: Vec<Node> = Vec::new();
        proof {
            assert(tree_views(dom@) =~= Seq::empty());
        }
        loop
            invariant
                self.tokens() == tokens,
                tokens == old(self).tokens(),
                start == old(self).offset(),
                0 <= start <= self.offset() <= tokens.len(),
                document_at(tokens, start, Seq::empty()) == document_at(
                    tokens,
                    self.offset(),
                    tree_views(dom@),
                ),
            decreases tokens.len() - self.offset(),
        {
            let ghost p = self.offset();
            let ghost before = tree_views(dom@);
            proof {
                lemma_tree_advances(tokens, p);
            }
            if self.next_token_is(&Token::Eof) {
                return Ok(dom);
            }
            match self.parse_node() {
                Ok(node) => {
                    dom.push(node);
                    proof {
                        assert(tree_views(dom@) =~= before.push(node@));
                    }
                },
                Err(e) => {
                    return Err(e);
                },
            }
        }
    }
}

} // verus!
