//! A last-in, first-out stack over a vector, and a bracket-matching check
//! built on top of it.

use vstd::prelude::*;

verus! {

/// A stack; `self@` lists its elements from bottom to top.
pub struct Stack<T> {
    items: Vec<T>,
}

impl<T> View for Stack<T> {
    type V = Seq<T>;

    closed spec fn view(&self) -> Seq<T> {
        self.items@
    }
}

impl<T> Stack<T> {
    /// Creates a new, empty stack.
    pub fn new() -> (s: Self)
        ensures
            s@ == Seq::<T>::empty(),
    {
        Stack { items: Vec::new() }
    }

    /// Pushes a value on top of the stack.
    pub fn push(&mut self, item: T)
        ensures
            final(self)@ == old(self)@.push(item),
    {
        self.items.push(item);
    }

    /// Pops the top value off the stack; returns `None` when it is empty.
    pub fn pop(&mut self) -> (r: Option<T>)
        ensures
            match r {
                Some(item) => old(self)@.len() > 0 && item == old(self)@.last() && final(self)@
                    == old(self)@.drop_last(),
                None => old(self)@.len() == 0 && final(self)@ == old(self)@,
            },
    {
        self.items.pop()
    }

    /// Returns a reference to the top value without removing it.
    pub fn peek(&self) -> (r: Option<&T>)
        ensures
            match r {
                Some(item) => self@.len() > 0 && *item == self@.last(),
                None => self@.len() == 0,
            },
    {
        if self.items.len() == 0 {
            None
        } else {
            Some(&self.items[self.items.len() - 1])
        }
    }

    /// Whether the stack holds no elements.
    pub fn is_empty(&self) -> (b: bool)
        ensures
            b == (self@.len() == 0),
    {
        self.len() == 0
    }

    /// The number of elements on the stack.
    pub fn len(&self) -> (n: usize)
        ensures
            n == self@.len(),
    {
        self.items.len()
    }
}

/// Whether `c` is an opening bracket.
pub open spec fn is_opening(c: char) -> bool {
    c == '(' || c == '[' || c == '{'
}

/// Whether `c` is a closing bracket.
pub open spec fn is_closing(c: char) -> bool {
    c == ')' || c == ']' || c == '}'
}

/// The opening bracket that the closing bracket `c` must match.
pub open spec fn opening_for(c: char) -> char {
    if c == ')' {
        '('
    } else if c == ']' {
        '['
    } else {
        '{'
    }
}

/// Whether reading `s` left to right with a stack of pending opening
/// brackets `pending` succeeds: every opening bracket is pushed, every
/// closing bracket must match the most recent unmatched opening one, other
/// characters are ignored, and at the end nothing may remain open.
pub open spec fn balanced_from(s: Seq<char>, pending: Seq<char>) -> bool
    decreases s.len(),
{
    if s.len() == 0 {
        pending.len() == 0
    } else if is_opening(s[0]) {
        balanced_from(s.drop_first(), pending.push(s[0]))
    } else if is_closing(s[0]) {
        pending.len() > 0 && pending.last() == opening_for(s[0]) && balanced_from(
            s.drop_first(),
            pending.drop_last(),
        )
    } else {
        balanced_from(s.drop_first(), pending)
    }
}

/// Whether the brackets `()`, `[]`, `{}` in `s` are balanced and properly
/// nested; characters other than brackets are ignored.
pub open spec fn is_balanced(s: Seq<char>) -> bool {
    balanced_from(s, Seq::<char>::empty())
}

/// Checks whether the brackets in `s` are balanced, using a stack of the
/// opening brackets still waiting for their match.
pub fn check_balanced_parentheses(s: &str) -> (r: bool)
    ensures
        r == is_balanced(s@),
{
    let n = s.unicode_len();
    let mut stack: Stack<char> = Stack::new();
    let mut i: usize = 0;
    assert(s@.skip(0) =~= s@);
    while i < n
        invariant
            n == s@.len(),
            0 <= i <= n,
            is_balanced(s@) == balanced_from(s@.skip(i as int), stack@),
        decreases n - i,
    {
        let ghost prev = s@.skip(i as int);
        assert(prev.drop_first() =~= s@.skip(i + 1));
        let c = s.get_char(i);
        match c {
            '(' | '[' | '{' => {
                stack.push(c);
            },
            ')' => {
                if stack.pop() != Some('(') {
                    return false;
                }
            },
            ']' => {
                if stack.pop() != Some('[') {
                    return false;
                }
            },
            '}' => {
                if stack.pop() != Some('{') {
                    return false;
                }
            },
            _ => {},
        }
        i = i + 1;
    }
    assert(s@.skip(n as int) =~= Seq::<char>::empty());
    stack.is_empty()
}

} // verus!
