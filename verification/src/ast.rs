use vstd::prelude::*;
use vstd::string::to_string_from_display_ensures;

verus! {

/// What a command is in contracts: the program's name and its arguments, in order.
pub struct Call {
    pub name: Seq<char>,
    pub args: Seq<Seq<char>>,
}

/// What a statement is in contracts: the same tree, with its text as character sequences.
pub enum Node {
    Comment(Seq<char>),
    Command(Call),
    If(Call, Box<Node>, Option<Box<Node>>),
    Block(Seq<Node>),
    While(Call, Box<Node>),
}

/// One statement of a script.
#[derive(PartialEq, Eq, Debug)]
pub enum AST {
    Comment(String),
    Command(Command),
    If(Conditional),
    Block(Block),
    While(While),
}

/// A program to run, with its arguments.
#[derive(PartialEq, Eq, Debug)]
pub struct Command {
    pub command: String,
    pub args: Vec<String>,
}

/// A predicate with the statement to run when it succeeds and, optionally, the one to run when
/// it does not.
#[derive(Debug, PartialEq, Eq)]
pub struct Conditional {
    pub predicate: Command,
    pub if_block: Box<AST>,
    pub else_block: Option<Box<AST>>,
}

/// Statements run in order.
#[derive(Debug, PartialEq, Eq)]
pub struct Block(pub Vec<AST>);

/// A predicate checked before every round, and the statement run in each.
#[derive(Debug, PartialEq, Eq)]
pub struct While {
    pub predicate: Command,
    pub block: Box<AST>,
}

/// The character sequences of a list of strings.
pub open spec fn texts(v: Seq<String>) -> Seq<Seq<char>> {
    Seq::new(v.len(), |i: int| v[i]@)
}

impl View for Command {
    type V = Call;

    open spec fn view(&self) -> Call {
        Call { name: self.command@, args: texts(self.args@) }
    }
}

/// The tree of a statement.
pub open spec fn node_of(a: AST) -> Node
    decreases a,
{
    match a {
        AST::Comment(text) => Node::Comment(text@),
        AST::Command(c) => Node::Command(c@),
        AST::If(c) => Node::If(
            c.predicate@,
            Box::new(node_of(*c.if_block)),
            match c.else_block {
                Some(b) => Some(Box::new(node_of(*b))),
                None => None,
            },
        ),
        AST::Block(b) => Node::Block(nodes(b.0@)),
        AST::While(w) => Node::While(w.predicate@, Box::new(node_of(*w.block))),
    }
}

/// The trees of a list of statements.
pub open spec fn nodes(v: Seq<AST>) -> Seq<Node>
    decreases v,
{
    Seq::new(v.len(), |i: int| if 0 <= i < v.len() { node_of(v[i]) } else { Node::Block(Seq::empty()) })
}

impl View for AST {
    type V = Node;

    open spec fn view(&self) -> Node {
        node_of(*self)
    }
}

impl View for Conditional {
    type V = Node;

    open spec fn view(&self) -> Node {
        Node::If(
            self.predicate@,
            Box::new(self.if_block@),
            match self.else_block {
                Some(b) => Some(Box::new(b@)),
                None => None,
            },
        )
    }
}

impl View for Block {
    type V = Node;

    open spec fn view(&self) -> Node {
        Node::Block(nodes(self.0@))
    }
}

impl View for While {
    type V = Node;

    open spec fn view(&self) -> Node {
        Node::While(self.predicate@, Box::new(self.block@))
    }
}

impl Command {
    /// Builds a command from anything that renders as text.
    pub fn new<S>(s: S, args: Vec<S>) -> (r: Command) where S: std::fmt::Display
        ensures
            to_string_from_display_ensures::<S>(&s, r.command),
            r.args@.len() == args@.len(),
            forall|i: int|
                0 <= i < args@.len() ==> to_string_from_display_ensures::<S>(
                    &args@[i],
                    #[trigger] r.args@[i],
                ),
    {
        let mut rendered: Vec<String> = Vec::new();
        let mut i: usize = 0;
        while i < args.len()
            invariant
                i <= args@.len(),
                rendered@.len() == i,
                forall|k: int|
                    0 <= k < i ==> to_string_from_display_ensures::<S>(
                        &args@[k],
                        #[trigger] rendered@[k],
                    ),
            decreases args@.len() - i,
        {
            rendered.push(args[i].to_string());
            i += 1;
        }
        Command { command: s.to_string(), args: rendered }
    }

    /// Builds a command without arguments.
    pub fn no_args<S>(s: S) -> (r: Command) where S: std::fmt::Display
        ensures
            to_string_from_display_ensures::<S>(&s, r.command),
            r.args@.len() == 0,
    {
        Command { command: s.to_string(), args: Vec::new() }
    }
}

impl Conditional {
    /// Builds a conditional; the branches move onto the heap.
    pub fn new(predicate: Command, if_block: AST, else_block: Option<AST>) -> (r: Conditional)
        ensures
            r.predicate == predicate,
            *r.if_block == if_block,
            match else_block {
                Some(b) => r.else_block == Some(Box::new(b)),
                None => r.else_block is None,
            },
    {
        Conditional {
            predicate,
            if_block: Box::new(if_block),
            else_block: match else_block {
                Some(b) => Some(Box::new(b)),
                None => None,
            },
        }
    }
}

impl While {
    /// Builds a loop; the body moves onto the heap.
    pub fn new(predicate: Command, block: AST) -> (r: While)
        ensures
            r.predicate == predicate,
            *r.block == block,
    {
        While { predicate, block: Box::new(block) }
    }
}

} // verus!
