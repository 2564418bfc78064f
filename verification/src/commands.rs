//! The command parser: a state machine fed one flattened frame node at a
//! time. It accepts exactly the frames that spell a supported command
//! with the right arity, and names the first thing wrong with any other
//! frame.

use crate::command::{kw_del, kw_get, kw_set, keyword_is};
use crate::redis_value::{leaf_bytes, Node, Value};
use vstd::prelude::*;

verus! {

/// A parsed operation over the store.
#[derive(Debug)]
pub enum Cmd<T> {
    SET { key: T, value: T },
    GET { key: T },
    DEL { keys: Vec<T> },
}

/// Why a frame is not a well-formed command: the wrong node where a
/// value or the frame end was expected, an unknown keyword or arity, a
/// value after the command was complete, too few values to name a
/// command, an absent value where a key or value is required, or a
/// frame that ended mid-command.
#[derive(Clone, Copy, Debug, PartialEq, Eq, Structural)]
pub enum ParseError {
    Unexpected,
    UnknownCmd,
    ExtraValues,
    EmptyNodes,
    NilError,
    UnknownError,
}

/// The parser's position inside a command frame.
enum ParserState {
    Start,
    Started(usize),
    ParseSET(Option<Value<Vec<u8>>>, Option<Value<Vec<u8>>>),
    ParseGET(Option<Value<Vec<u8>>>),
    ParseDEL(usize, Vec<Value<Vec<u8>>>),
    Done(Cmd<Value<Vec<u8>>>),
    Error(ParseError),
}

/// The parser's position, with mathematical contents: counts as
/// integers and collected keys as a sequence.
pub enum SpecState {
    Start,
    Started(int),
    ParseSET(Option<Value<Vec<u8>>>, Option<Value<Vec<u8>>>),
    ParseGET(Option<Value<Vec<u8>>>),
    ParseDEL(int, Seq<Value<Vec<u8>>>),
    Done(SpecCmd),
    Error(ParseError),
}

/// A parsed operation, with collected keys as a sequence.
#[allow(non_camel_case_types)]
pub enum SpecCmd {
    SET(Value<Vec<u8>>, Value<Vec<u8>>),
    GET(Value<Vec<u8>>),
    DEL(Seq<Value<Vec<u8>>>),
}

/// One transition of the parser: what the next node turns each position
/// into. A frame must open an array of at least the keyword and one
/// argument; the keyword fixes the arity; an absent value is never
/// accepted as a key or a value; errors and completed commands absorb
/// everything that follows.
pub open spec fn spec_next(st: SpecState, node: Node<Vec<u8>>) -> SpecState {
    match st {
        SpecState::Start => match node {
            Node::Open(x) => if x >= 2 {
                SpecState::Started(x as int)
            } else {
                SpecState::Error(ParseError::EmptyNodes)
            },
            _ => SpecState::Error(ParseError::EmptyNodes),
        },
        SpecState::Started(n_items) => match node {
            Node::Leaf(v) => {
                let kw = leaf_bytes(v);
                if kw == kw_set() && n_items == 3 {
                    SpecState::ParseSET(None, None)
                } else if kw == kw_get() && n_items == 2 {
                    SpecState::ParseGET(None)
                } else if kw == kw_del() && n_items >= 1 {
                    SpecState::ParseDEL(n_items - 1, Seq::empty())
                } else {
                    SpecState::Error(ParseError::UnknownCmd)
                }
            },
            _ => SpecState::Error(ParseError::Unexpected),
        },
        SpecState::ParseGET(opt) => match opt {
            None => match node {
                Node::Leaf(v) => SpecState::ParseGET(Some(v)),
                _ => SpecState::Error(ParseError::Unexpected),
            },
            Some(v) => if v is Nil {
                SpecState::Error(ParseError::NilError)
            } else {
                match node {
                    Node::Close => SpecState::Done(SpecCmd::GET(v)),
                    _ => SpecState::Error(ParseError::ExtraValues),
                }
            },
        },
        SpecState::ParseSET(k_opt, v_opt) => match (k_opt, v_opt) {
            (None, None) => match node {
                Node::Leaf(v) => SpecState::ParseSET(Some(v), None),
                _ => SpecState::Error(ParseError::Unexpected),
            },
            (Some(k), None) => match node {
                Node::Leaf(v) => SpecState::ParseSET(Some(k), Some(v)),
                _ => SpecState::Error(ParseError::Unexpected),
            },
            (Some(k), Some(v)) => match node {
                Node::Close => if k is Nil || v is Nil {
                    SpecState::Error(ParseError::NilError)
                } else {
                    SpecState::Done(SpecCmd::SET(k, v))
                },
                _ => SpecState::Error(ParseError::Unexpected),
            },
            (None, Some(_)) => SpecState::Error(ParseError::UnknownError),
        },
        SpecState::ParseDEL(n_expected, xs) => if n_expected > 0 {
            match node {
                Node::Leaf(v) => SpecState::ParseDEL(n_expected - 1, xs.push(v)),
                _ => SpecState::Error(ParseError::Unexpected),
            }
        } else {
            match node {
                Node::Close => SpecState::Done(SpecCmd::DEL(xs)),
                _ => SpecState::Error(ParseError::ExtraValues),
            }
        },
        SpecState::Error(e) => SpecState::Error(e),
        SpecState::Done(_) => SpecState::Error(ParseError::ExtraValues),
    }
}

/// Where the parser stands after reading a whole node sequence from the
/// starting position.
pub open spec fn spec_run(ns: Seq<Node<Vec<u8>>>) -> SpecState
    decreases ns.len(),
{
    if ns.len() == 0 {
        SpecState::Start
    } else {
        spec_next(spec_run(ns.drop_last()), ns.last())
    }
}

/// An error position absorbs every further node.
proof fn lemma_run_absorbs(ns: Seq<Node<Vec<u8>>>, i: int, e: ParseError)
    requires
        0 <= i <= ns.len(),
        spec_run(ns.take(i)) == SpecState::Error(e),
    ensures
        spec_run(ns) == SpecState::Error(e),
    decreases ns.len() - i,
{
    if i < ns.len() {
        assert(ns.take(i + 1).drop_last() =~= ns.take(i));
        assert(ns.take(i + 1).last() == ns[i]);
        lemma_run_absorbs(ns, i + 1, e);
    } else {
        assert(ns.take(i) =~= ns);
    }
}

/// The mathematical contents of a parser position.
spec fn abs(st: ParserState) -> SpecState {
    match st {
        ParserState::Start => SpecState::Start,
        ParserState::Started(n) => SpecState::Started(n as int),
        ParserState::ParseSET(k, v) => SpecState::ParseSET(k, v),
        ParserState::ParseGET(v) => SpecState::ParseGET(v),
        ParserState::ParseDEL(n, xs) => SpecState::ParseDEL(n as int, xs@),
        ParserState::Done(c) => SpecState::Done(abs_cmd(c)),
        ParserState::Error(e) => SpecState::Error(e),
    }
}

/// The mathematical contents of a parsed command.
pub open spec fn abs_cmd(c: Cmd<Value<Vec<u8>>>) -> SpecCmd {
    match c {
        Cmd::SET { key, value } => SpecCmd::SET(key, value),
        Cmd::GET { key } => SpecCmd::GET(key),
        Cmd::DEL { keys } => SpecCmd::DEL(keys@),
    }
}

impl ParserState {
    /// Feed one node to the parser.
    fn next_node(self, node: Node<Vec<u8>>) -> (r: Self)
        ensures
            abs(r) == spec_next(abs(self), node),
    {
        match self {
            ParserState::Start => match node {
                Node::Open(x) => {
                    if x >= 2 {
                        ParserState::Started(x)
                    } else {
                        ParserState::Error(ParseError::EmptyNodes)
                    }
                },
                _ => ParserState::Error(ParseError::EmptyNodes),
            },
            ParserState::Started(n_items) => match node {
                Node::Leaf(v) => {
                    let keyword = v.as_slice();
                    if keyword_is(keyword, 83, 69, 84) && n_items == 3 {
                        ParserState::ParseSET(None, None)
                    } else if keyword_is(keyword, 71, 69, 84) && n_items == 2 {
                        ParserState::ParseGET(None)
                    } else if keyword_is(keyword, 68, 69, 76) && n_items >= 1 {
                        ParserState::ParseDEL(n_items - 1, Vec::new())
                    } else {
                        ParserState::Error(ParseError::UnknownCmd)
                    }
                },
                _ => ParserState::Error(ParseError::Unexpected),
            },
            ParserState::ParseGET(opt) => match opt {
                None => match node {
                    Node::Leaf(v) => ParserState::ParseGET(Some(v)),
                    _ => ParserState::Error(ParseError::Unexpected),
                },
                Some(v) => match &v {
                    Value::Nil => ParserState::Error(ParseError::NilError),
                    _ => match node {
                        Node::Close => ParserState::Done(Cmd::GET { key: v }),
                        _ => ParserState::Error(ParseError::ExtraValues),
                    },
                },
            },
            ParserState::ParseSET(k_opt, v_opt) => match (k_opt, v_opt) {
                (None, None) => match node {
                    Node::Leaf(v) => ParserState::ParseSET(Some(v), None),
                    _ => ParserState::Error(ParseError::Unexpected),
                },
                (Some(k), None) => match node {
                    Node::Leaf(v) => ParserState::ParseSET(Some(k), Some(v)),
                    _ => ParserState::Error(ParseError::Unexpected),
                },
                (Some(k), Some(v)) => match node {
                    Node::Close => {
                        let k_nil = matches!(&k, Value::Nil);
                        let v_nil = matches!(&v, Value::Nil);
                        if k_nil || v_nil {
                            ParserState::Error(ParseError::NilError)
                        } else {
                            ParserState::Done(Cmd::SET { key: k, value: v })
                        }
                    },
                    _ => ParserState::Error(ParseError::Unexpected),
                },
                (None, Some(_)) => ParserState::Error(ParseError::UnknownError),
            },
            ParserState::ParseDEL(n_expected, xs) => {
                if n_expected > 0 {
                    match node {
                        Node::Leaf(v) => {
                            let mut xs = xs;
                            xs.push(v);
                            ParserState::ParseDEL(n_expected - 1, xs)
                        },
                        _ => ParserState::Error(ParseError::Unexpected),
                    }
                } else {
                    match node {
                        Node::Close => ParserState::Done(Cmd::DEL { keys: xs }),
                        _ => ParserState::Error(ParseError::ExtraValues),
                    }
                }
            },
            ParserState::Error(e) => ParserState::Error(e),
            ParserState::Done(_) => ParserState::Error(ParseError::ExtraValues),
        }
    }
}

/// Parse a whole flattened frame as a command: run the state machine
/// over the nodes in order, stopping at the first error. A frame is a
/// command exactly when the machine ends in its completed position; one
/// that ends anywhere else was cut short.
#[verifier::loop_isolation(false)]
pub fn parse_command(nodes: Vec<Node<Vec<u8>>>) -> (r: Result<
    Cmd<Value<Vec<u8>>>,
    ParseError,
>)
    ensures
        spec_run(nodes@) matches SpecState::Done(c) ==> (r matches Ok(cmd) && abs_cmd(cmd) == c),
        spec_run(nodes@) matches SpecState::Error(e) ==> r == Err::<
            Cmd<Value<Vec<u8>>>,
            ParseError,
        >(e),
        !(spec_run(nodes@) is Done) && !(spec_run(nodes@) is Error) ==> r == Err::<
            Cmd<Value<Vec<u8>>>,
            ParseError,
        >(ParseError::UnknownError),
{
    let ghost all = nodes@;
    let mut nodes = nodes;
    let mut state = ParserState::Start;
    let ghost mut i: int = 0;
    proof {
        assert(all.take(0) =~= Seq::<Node<Vec<u8>>>::empty());
    }
    while nodes.len() > 0
        invariant
            0 <= i <= all.len(),
            nodes@ == all.skip(i),
            abs(state) == spec_run(all.take(i)),
        decreases nodes@.len(),
    {
        let node = nodes.remove(0);
        proof {
            assert(node == all[i]);
            assert(nodes@ =~= all.skip(i + 1));
            assert(all.take(i + 1).drop_last() =~= all.take(i));
            assert(all.take(i + 1).last() == all[i]);
        }
        state = state.next_node(node);
        proof {
            i = i + 1;
        }
        match &state {
            ParserState::Error(e) => {
                proof {
                    lemma_run_absorbs(all, i, *e);
                }
                return Err(*e);
            },
            _ => {},
        }
    }
    proof {
        assert(all.take(i) =~= all);
    }
    match state {
        ParserState::Done(cmd) => Ok(cmd),
        ParserState::Error(err) => Err(err),
        _ => Err(ParseError::UnknownError),
    }
}

} // verus!
