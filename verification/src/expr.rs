//! The arithmetic expression tree: leaves are plain integers, inner nodes
//! apply `+` or `*` to two subtrees. A tree is immutable once built; the
//! search composes solved subtrees into larger ones bottom-up.

use vstd::prelude::*;
use vstd::string::StringExecFns;

verus! {

/// The two operators an expression tree may contain. There is no
/// subtraction and no division.
pub enum Op {
    Plus,
    Times,
}

/// An inner node: the expression `a op b`.
pub struct Operation {
    pub a: Node,
    pub op: Op,
    pub b: Node,
}

/// An expression tree: a bare value, or an operation applied to two
/// subtrees. Each node owns its children outright, so a value of this
/// type is always a finite tree.
pub enum Node {
    Leaf(u64),
    Operation(Box<Operation>),
}

impl Operation {
    /// Builds the inner node `a op b`.
    pub fn new(a: Node, b: Node, op: Op) -> (r: Self)
        ensures
            r.a == a,
            r.b == b,
            r.op == op,
    {
        Self { a, b, op }
    }
}

/// The integer a tree evaluates to: a leaf is its value, an operation
/// applies its operator to the evaluated children.
pub open spec fn eval(t: Node) -> int
    decreases t,
{
    match t {
        Node::Leaf(v) => v as int,
        Node::Operation(o) => match o.op {
            Op::Plus => eval(o.a) + eval(o.b),
            Op::Times => eval(o.a) * eval(o.b),
        },
    }
}

/// The depth of a tree: a leaf has depth 0, an operation sits one level
/// above its deeper child.
pub open spec fn depth(t: Node) -> nat
    decreases t,
{
    match t {
        Node::Leaf(_) => 0,
        Node::Operation(o) => 1 + if depth(o.a) >= depth(o.b) {
            depth(o.a)
        } else {
            depth(o.b)
        },
    }
}

/// Holds when every leaf of the tree carries a value from `allowed`.
pub open spec fn leaves_in(t: Node, allowed: Seq<u64>) -> bool
    decreases t,
{
    match t {
        Node::Leaf(v) => allowed.contains(v),
        Node::Operation(o) => leaves_in(o.a, allowed) && leaves_in(o.b, allowed),
    }
}

/// Holds when the tree's value, and the value of each of its subtrees,
/// fits in a `u64`.
pub open spec fn eval_fits(t: Node) -> bool
    decreases t,
{
    eval(t) <= u64::MAX as int && match t {
        Node::Leaf(_) => true,
        Node::Operation(o) => eval_fits(o.a) && eval_fits(o.b),
    }
}

impl Node {
    /// The tree's value, computed without wrapping: `None` exactly when
    /// the value of the tree or of one of its subtrees does not fit in
    /// a `u64`.
    pub fn eval_value(&self) -> (r: Option<u64>)
        ensures
            r matches Some(v) ==> v as int == eval(*self),
            r is Some <==> eval_fits(*self),
        decreases *self,
    {
        match self {
            Node::Leaf(v) => Some(*v),
            Node::Operation(o) => {
                let va = match o.a.eval_value() {
                    Some(v) => v,
                    None => {
                        return None;
                    },
                };
                let vb = match o.b.eval_value() {
                    Some(v) => v,
                    None => {
                        return None;
                    },
                };
                match o.op {
                    Op::Plus => va.checked_add(vb),
                    Op::Times => va.checked_mul(vb),
                }
            },
        }
    }

    /// Whether every leaf value of this tree occurs in `allowed`.
    pub fn leaves_within(&self, allowed: &[u64]) -> (r: bool)
        ensures
            r == leaves_in(*self, allowed@),
        decreases *self,
    {
        match self {
            Node::Leaf(v) => contains_u64(allowed, *v),
            Node::Operation(o) => o.a.leaves_within(allowed) && o.b.leaves_within(allowed),
        }
    }
}

/// The character for one decimal digit.
pub open spec fn digit_char(d: nat) -> char {
    if d == 0 {
        '0'
    } else if d == 1 {
        '1'
    } else if d == 2 {
        '2'
    } else if d == 3 {
        '3'
    } else if d == 4 {
        '4'
    } else if d == 5 {
        '5'
    } else if d == 6 {
        '6'
    } else if d == 7 {
        '7'
    } else if d == 8 {
        '8'
    } else {
        '9'
    }
}

/// The decimal digits of `n`, most significant first, without a sign and
/// without leading zeros (a single zero for 0).
pub open spec fn dec_digits(n: nat) -> Seq<char>
    decreases n,
{
    if n < 10 {
        seq![digit_char(n)]
    } else {
        dec_digits(n / 10) + seq![digit_char(n % 10)]
    }
}

/// The symbol an operator renders as.
pub open spec fn op_char(op: Op) -> char {
    match op {
        Op::Plus => '+',
        Op::Times => '*',
    }
}

/// The fully parenthesized text of a tree: a leaf is its decimal value,
/// an operation is `(<left> <op> <right>)`. Distinct tree shapes render
/// distinctly, up to operand order.
pub open spec fn rendered(t: Node) -> Seq<char>
    decreases t,
{
    match t {
        Node::Leaf(v) => dec_digits(v as nat),
        Node::Operation(o) => seq!['('] + rendered(o.a) + seq![' ', op_char(o.op), ' ']
            + rendered(o.b) + seq![')'],
    }
}

/// Appends the decimal digits of `n` to `out`.
fn push_decimal(out: &mut String, n: u64)
    ensures
        final(out)@ == old(out)@ + dec_digits(n as nat),
    decreases n,
{
    if n >= 10 {
        push_decimal(out, n / 10);
    }
    let d = n % 10;
    if d == 0 {
        proof {
            reveal_strlit("0");
            assert("0"@ =~= seq![digit_char(d as nat)]);
        }
        out.append("0");
    } else if d == 1 {
        proof {
            reveal_strlit("1");
            assert("1"@ =~= seq![digit_char(d as nat)]);
        }
        out.append("1");
    } else if d == 2 {
        proof {
            reveal_strlit("2");
            assert("2"@ =~= seq![digit_char(d as nat)]);
        }
        out.append("2");
    } else if d == 3 {
        proof {
            reveal_strlit("3");
            assert("3"@ =~= seq![digit_char(d as nat)]);
        }
        out.append("3");
    } else if d == 4 {
        proof {
            reveal_strlit("4");
            assert("4"@ =~= seq![digit_char(d as nat)]);
        }
        out.append("4");
    } else if d == 5 {
        proof {
            reveal_strlit("5");
            assert("5"@ =~= seq![digit_char(d as nat)]);
        }
        out.append("5");
    } else if d == 6 {
        proof {
            reveal_strlit("6");
            assert("6"@ =~= seq![digit_char(d as nat)]);
        }
        out.append("6");
    } else if d == 7 {
        proof {
            reveal_strlit("7");
            assert("7"@ =~= seq![digit_char(d as nat)]);
        }
        out.append("7");
    } else if d == 8 {
        proof {
            reveal_strlit("8");
            assert("8"@ =~= seq![digit_char(d as nat)]);
        }
        out.append("8");
    } else {
        proof {
            reveal_strlit("9");
            assert("9"@ =~= seq![digit_char(d as nat)]);
        }
        out.append("9");
    }
    proof {
        assert(out@ =~= old(out)@ + dec_digits(n as nat));
    }
}

impl Node {
    /// Appends the fully parenthesized text of this tree to `out`.
    fn push_rendered(&self, out: &mut String)
        ensures
            final(out)@ == old(out)@ + rendered(*self),
        decreases *self,
    {
        match self {
            Node::Leaf(v) => {
                push_decimal(out, *v);
            },
            Node::Operation(o) => {
                proof {
                    reveal_strlit("(");
                    reveal_strlit(")");
                    reveal_strlit(" + ");
                    reveal_strlit(" * ");
                    assert("("@ =~= seq!['(']);
                    assert(")"@ =~= seq![')']);
                    assert(" + "@ =~= seq![' ', '+', ' ']);
                    assert(" * "@ =~= seq![' ', '*', ' ']);
                }
                out.append("(");
                o.a.push_rendered(out);
                match o.op {
                    Op::Plus => out.append(" + "),
                    Op::Times => out.append(" * "),
                }
                o.b.push_rendered(out);
                out.append(")");
                proof {
                    assert(out@ =~= old(out)@ + rendered(*self));
                }
            },
        }
    }

    /// The fully parenthesized decimal text of the tree, as the spec
    /// function `rendered` gives it.
    pub fn render(&self) -> (r: String)
        ensures
            r@ == rendered(*self),
    {
        let mut out = String::new();
        self.push_rendered(&mut out);
        proof {
            assert(out@ =~= rendered(*self));
        }
        out
    }
}

/// Whether `x` occurs in the slice `v`.
pub fn contains_u64(v: &[u64], x: u64) -> (r: bool)
    ensures
        r == v@.contains(x),
{
    let mut k: usize = 0;
    while k < v.len()
        invariant
            0 <= k <= v.len(),
            forall|m: int| 0 <= m < k ==> v@[m] != x,
        decreases v.len() - k,
    {
        if v[k] == x {
            return true;
        }
        k += 1;
    }
    false
}

} // verus!
