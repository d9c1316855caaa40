//! The syntax-node model: a typed, span-tagged tree handed to the compiler
//! by the grammar front end.
use vstd::prelude::*;

verus! {

/// The rule tag of a syntax node. Tags the compiler does not recognize are
/// carried as `Other` and ignored by every processor.
#[derive(Debug, Clone, Copy, PartialEq, Eq, Structural)]
pub enum NodeKind {
    ImportStatement,
    VariableDeclaration,
    FunctionDefinition,
    RuleNormal,
    KeyframesRule,
    MediaQuery,
    AtMethodsOneliner,
    RuleComment,
    EndOfInput,
    Selector,
    RightCurlyBrace,
    Declaration,
    UserCreatedFunctionCall,
    VariableName,
    StringLiteral,
    VariableReference,
    FunctionName,
    FunctionBlock,
    ParameterList,
    KeyframesName,
    KeyframeSelectorBlock,
    KeyframeSelector,
    MediaCondition,
    Identifier,
    Other,
}

/// One typed parse-tree node: rule tag, raw text span, 1-based line,
/// column, and child nodes.
#[derive(Debug)]
pub struct Node {
    pub kind: NodeKind,
    pub text: String,
    pub line: usize,
    pub column: usize,
    pub children: Vec<Node>,
}

/// The mathematical view of a syntax node.
pub struct NodeV {
    pub kind: NodeKind,
    pub text: Seq<char>,
    pub line: int,
    pub column: int,
    pub children: Seq<NodeV>,
}

/// The view of a sequence of nodes, elementwise.
pub open spec fn nodes_view(s: Seq<Node>) -> Seq<NodeV>
    decreases s,
{
    if s.len() == 0 {
        Seq::empty()
    } else {
        seq![node_view(s[0])] + nodes_view(s.subrange(1, s.len() as int))
    }
}

/// The view of one node: its fields, with the children viewed recursively.
pub open spec fn node_view(n: Node) -> NodeV
    decreases n,
{
    NodeV {
        kind: n.kind,
        text: n.text@,
        line: n.line as int,
        column: n.column as int,
        children: nodes_view(n.children@),
    }
}

impl View for Node {
    type V = NodeV;

    open spec fn view(&self) -> NodeV {
        node_view(*self)
    }
}

/// Line numbers throughout the tree leave room for the two-line error
/// context window, so snippet extraction cannot overflow.
pub open spec fn node_lines_ok(n: NodeV) -> bool
    decreases n,
{
    n.line + 2 <= usize::MAX && (forall|i: int|
        0 <= i < n.children.len() ==> node_lines_ok(#[trigger] n.children[i]))
}

/// Viewing a node sequence views each node, in place.
pub broadcast proof fn lemma_nodes_view(s: Seq<Node>)
    ensures
        (#[trigger] nodes_view(s)).len() == s.len(),
        forall|i: int| 0 <= i < s.len() ==> nodes_view(s)[i] == node_view(s[i]),
    decreases s.len(),
{
    if s.len() > 0 {
        let t = s.subrange(1, s.len() as int);
        lemma_nodes_view(t);
        assert(forall|i: int| 0 <= i < t.len() ==> t[i] == s[i + 1]);
        assert(forall|i: int|
            0 <= i < s.len() ==> nodes_view(s)[i] == node_view(#[trigger] s[i])) by {
            assert(forall|i: int|
                1 <= i < s.len() ==> #[trigger] nodes_view(s)[i] == nodes_view(t)[i - 1]);
        }
    }
}

/// The text of the last child with the given kind, or the empty
/// sequence if no child has it; a later child overwrites an earlier one.
pub open spec fn last_text_of_kind(children: Seq<NodeV>, kind: NodeKind) -> Seq<char>
    decreases children.len(),
{
    if children.len() == 0 {
        Seq::empty()
    } else if children[children.len() - 1].kind == kind {
        children[children.len() - 1].text
    } else {
        last_text_of_kind(children.subrange(0, children.len() - 1), kind)
    }
}

proof fn lemma_last_text_skip(children: Seq<NodeV>, kind: NodeKind, i: int)
    requires
        0 <= i <= children.len(),
        forall|m: int| i <= m < children.len() ==> (#[trigger] children[m]).kind != kind,
    ensures
        last_text_of_kind(children, kind) == last_text_of_kind(children.subrange(0, i), kind),
    decreases children.len() - i,
{
    if i == children.len() {
        assert(children.subrange(0, children.len() as int) =~= children);
    } else {
        let t = children.subrange(0, children.len() - 1);
        assert(forall|m: int| i <= m < t.len() ==> (#[trigger] t[m]).kind != kind);
        lemma_last_text_skip(t, kind, i);
        assert(t.subrange(0, i) =~= children.subrange(0, i));
    }
}

impl Node {
    /// The text of the last child with the given kind, if any child has it.
    pub fn last_text_of(&self, kind: NodeKind) -> (r: Option<&String>)
        ensures
            match r {
                Some(t) => last_text_of_kind(self@.children, kind) == t@,
                None => last_text_of_kind(self@.children, kind) == Seq::<char>::empty(),
            },
    {
        proof {
            lemma_nodes_view(self.children@);
        }
        let n = self.children.len();
        let mut i: usize = n;
        while i > 0
            invariant
                0 <= i <= n,
                n == self.children.len(),
                self@.children.len() == n,
                forall|m: int|
                    i <= m < n ==> (#[trigger] self@.children[m]).kind != kind,
            decreases i,
        {
            i = i - 1;
            proof {
                lemma_nodes_view(self.children@);
                assert(self@.children[i as int] == node_view(self.children@[i as int]));
            }
            if self.children[i].kind == kind {
                proof {
                    lemma_last_text_skip(self@.children, kind, i + 1);
                    let t = self@.children.subrange(0, i + 1);
                    assert(t[t.len() - 1] == self@.children[i as int]);
                }
                return Some(&self.children[i].text);
            }
        }
        proof {
            lemma_last_text_skip(self@.children, kind, 0);
            assert(self@.children.subrange(0, 0) =~= Seq::<NodeV>::empty());
        }
        None
    }
}

} // verus!
