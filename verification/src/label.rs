//! Identifiers of nodes.
//!
//! A node is identified by the path that leads to it: the word `node`,
//! then, for each symbol on the way from the root down to the node itself,
//! an underscore and the symbol's code point in decimal. The identifier is
//! computed when it is asked for and nothing is stored in the node. It is
//! the same on every call, and two nodes at different positions of a
//! forest have different identifiers even where they carry the same
//! symbol and have the same subtrees.

use vstd::prelude::*;
use vstd::string::StringExecFns;
use crate::node::Node;

verus! {

/// `String::push` of std: appends the character to the end of the string.
pub assume_specification[ String::push ](s: &mut String, c: char)
    ensures
        final(s)@ == old(s)@.push(c),
;

/// The character of the decimal digit `d`.
pub open spec fn digit(d: nat) -> char {
    seq!['0', '1', '2', '3', '4', '5', '6', '7', '8', '9'][d as int]
}

/// The decimal numeral of `n`, without leading zeros.
pub open spec fn decimal(n: nat) -> Seq<char>
    decreases n,
{
    if n < 10 {
        seq![digit(n)]
    } else {
        decimal(n / 10).push(digit(n % 10))
    }
}

/// The label from which the labels of all roots are derived.
pub open spec fn root_label() -> Seq<char> {
    seq!['n', 'o', 'd', 'e']
}

/// The numeral of a symbol: its code point in decimal. A sentinel has
/// the empty numeral.
pub open spec fn numeral(sym: Option<char>) -> Seq<char> {
    match sym {
        Some(c) => decimal(c as u32 as nat),
        None => Seq::empty(),
    }
}

/// The label of a node with symbol `sym` below a position labelled `parent`:
/// the parent's label, an underscore, and the symbol's numeral.
pub open spec fn child_label(parent: Seq<char>, sym: Option<char>) -> Seq<char> {
    parent.push('_') + numeral(sym)
}

/// The label reached from the label `from` by going down along `path`.
pub open spec fn reach(from: Seq<char>, path: Seq<char>) -> Seq<char>
    decreases path.len(),
{
    if path.len() == 0 {
        from
    } else {
        child_label(reach(from, path.drop_last()), Some(path.last()))
    }
}

/// The label of the position reached along `path` from the top of the forest.
pub open spec fn label(path: Seq<char>) -> Seq<char> {
    reach(root_label(), path)
}

/// A decimal numeral is not empty and holds digits only.
pub proof fn lemma_decimal_digits(n: nat)
    ensures
        decimal(n).len() >= 1,
        forall|i: int| 0 <= i < decimal(n).len() ==> '0' <= (#[trigger] decimal(n)[i]) <= '9',
    decreases n,
{
    if n >= 10 {
        lemma_decimal_digits(n / 10);
    }
}

/// Different digits have different characters.
proof fn lemma_digit_injective(d: nat, e: nat)
    requires
        d < 10,
        e < 10,
        digit(d) == digit(e),
    ensures
        d == e,
{
    assert(digit(d) as u32 == 48 + d);
    assert(digit(e) as u32 == 48 + e);
}

/// Two numbers with the same decimal numeral are the same number.
pub proof fn lemma_decimal_injective(a: nat, b: nat)
    requires
        decimal(a) == decimal(b),
    ensures
        a == b,
    decreases a,
{
    if a >= 10 && b >= 10 {
        let front_a = decimal(a / 10);
        let front_b = decimal(b / 10);
        assert(decimal(a) == front_a.push(digit(a % 10)));
        assert(decimal(b) == front_b.push(digit(b % 10)));
        assert(front_a =~= decimal(a).drop_last());
        assert(front_b =~= decimal(b).drop_last());
        assert(decimal(a).last() == digit(a % 10));
        assert(decimal(b).last() == digit(b % 10));
        lemma_decimal_injective(a / 10, b / 10);
        lemma_digit_injective(a % 10, b % 10);
    } else if a >= 10 {
        lemma_decimal_digits(a / 10);
        assert(decimal(a).len() >= 2);
        assert(decimal(b).len() == 1);
    } else if b >= 10 {
        lemma_decimal_digits(b / 10);
        assert(decimal(b).len() >= 2);
        assert(decimal(a).len() == 1);
    } else {
        assert(decimal(a)[0] == digit(a));
        assert(decimal(b)[0] == digit(b));
        lemma_digit_injective(a, b);
    }
}

/// Two characters with the same code point are the same character.
pub proof fn lemma_code_injective(c: char, d: char)
    requires
        c as u32 == d as u32,
    ensures
        c == d,
{
    assert((c as u32) as char == c);
    assert((d as u32) as char == d);
}

/// A child's label is longer than its parent's.
pub proof fn lemma_child_label_len(parent: Seq<char>, sym: Option<char>)
    ensures
        child_label(parent, sym).len() > parent.len(),
{
    if let Some(c) = sym {
        lemma_decimal_digits(c as u32 as nat);
    }
}

/// Going down makes a label no shorter.
pub proof fn lemma_reach_len(from: Seq<char>, path: Seq<char>)
    ensures
        reach(from, path).len() >= from.len(),
        path.len() > 0 ==> reach(from, path).len() > from.len(),
    decreases path.len(),
{
    if path.len() > 0 {
        lemma_reach_len(from, path.drop_last());
        lemma_child_label_len(reach(from, path.drop_last()), Some(path.last()));
    }
}

/// Going down from a child is going down from the parent through the child.
pub proof fn lemma_reach_through(from: Seq<char>, c: char, path: Seq<char>)
    ensures
        reach(child_label(from, Some(c)), path) == reach(from, seq![c] + path),
    decreases path.len(),
{
    let whole = seq![c] + path;
    if path.len() == 0 {
        assert(whole.drop_last() =~= Seq::<char>::empty());
        assert(reach(from, whole.drop_last()) == from);
    } else {
        lemma_reach_through(from, c, path.drop_last());
        assert(whole.drop_last() =~= seq![c] + path.drop_last());
    }
}

/// Appends the decimal numeral of `n`.
fn push_decimal(out: &mut String, n: u32)
    ensures
        final(out)@ == old(out)@ + decimal(n as nat),
    decreases n,
{
    if n >= 10 {
        push_decimal(out, n / 10);
    }
    let d: u8 = (n % 10) as u8;
    out.push((48 + d) as char);
    assert(out@ =~= old(out)@ + decimal(n as nat));
}

/// The label of a node with symbol `sym` below the position labelled `parent`.
pub(crate) fn make_child_label(parent: &str, sym: Option<char>) -> (r: String)
    ensures
        r@ == child_label(parent@, sym),
{
    let mut r = String::from_str(parent);
    r.push('_');
    match sym {
        Some(c) => {
            push_decimal(&mut r, c as u32);
        },
        None => {
            assert(r@ =~= parent@.push('_') + Seq::<char>::empty());
        },
    }
    r
}

/// The label of the position reached along `path`.
pub(crate) fn make_label(path: &[char]) -> (r: String)
    ensures
        r@ == label(path@),
{
    let mut r = String::from_str("node");
    proof {
        reveal_strlit("node");
        assert(r@ =~= root_label());
        assert(path@.take(0) =~= Seq::<char>::empty());
    }
    let mut i: usize = 0;
    while i < path.len()
        invariant
            i <= path.len(),
            r@ == label(path@.take(i as int)),
        decreases path.len() - i,
    {
        proof {
            assert(path@.take(i + 1).drop_last() =~= path@.take(i as int));
        }
        r = make_child_label(r.as_str(), Some(path[i]));
        i += 1;
    }
    proof {
        assert(path@.take(path.len() as int) =~= path@);
    }
    r
}

impl Node {
    /// The identifier of this node where it is reached along `prefix`, the
    /// symbols of its ancestors from the root down.
    pub fn id(&self, prefix: &[char]) -> (r: String)
        ensures
            r@ == child_label(label(prefix@), self.sym),
    {
        let parent = make_label(prefix);
        make_child_label(parent.as_str(), self.sym)
    }
}

} // verus!
