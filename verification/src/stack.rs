//! A singly linked stack of strings with purely functional push and pop.
use vstd::prelude::*;

verus! {

/// A node holding one value and the rest of the stack.
#[derive(Debug)]
pub struct Node {
    pub data: String,
    pub next: Option<Box<Node>>,
}

/// A stack: either empty or a chain of nodes.
#[derive(Debug)]
pub struct Stack {
    pub vals: Option<Node>,
}

/// The values held by a chain of nodes, top first.
pub open spec fn node_view(n: Node) -> Seq<Seq<char>>
    decreases n,
{
    match n.next {
        Option::None => seq![n.data@],
        Option::Some(b) => seq![n.data@] + node_view(*b),
    }
}

/// The values held by a stack, top first.
pub open spec fn stack_view(s: Stack) -> Seq<Seq<char>> {
    match s.vals {
        Option::None => Seq::empty(),
        Option::Some(n) => node_view(n),
    }
}

/// An empty stack.
pub fn init() -> (r: Stack)
    ensures
        stack_view(r) == Seq::<Seq<char>>::empty(),
{
    Stack { vals: None }
}

/// Pushes a value on top of the stack, returning the new stack.
pub fn push(val: String, s: Stack) -> (r: Stack)
    ensures
        stack_view(r) == seq![val@] + stack_view(s),
{
    let ghost old_view = stack_view(s);
    let next = match s.vals {
        None => None,
        Some(n) => Some(Box::new(n)),
    };
    let new_node = Node { data: val, next };
    proof {
        if old_view.len() == 0 {
            assert(node_view(new_node) =~= seq![val@] + old_view);
        }
    }
    Stack { vals: Some(new_node) }
}

/// Pops the top value, returning it (if any) and the rest of the stack.
pub fn pop(s: Stack) -> (r: (Option<String>, Stack))
    ensures
        stack_view(s).len() == 0 ==> r.0 is None && stack_view(r.1) == stack_view(s),
        stack_view(s).len() > 0 ==> (r.0 matches Some(v) && v@ == stack_view(s)[0] && stack_view(
            r.1,
        ) == stack_view(s).skip(1)),
{
    let ghost old_view = stack_view(s);
    match s.vals {
        None => (None, s),
        Some(node) => {
            let popped_value = Some(node.data);
            let new_head = match node.next {
                None => None,
                Some(boxed_node) => Some(*boxed_node),
            };
            proof {
                assert(old_view.len() > 0);
                assert(old_view.skip(1) =~= stack_view(Stack { vals: new_head }));
            }
            (popped_value, Stack { vals: new_head })
        },
    }
}

} // verus!
