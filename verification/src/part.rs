//! Circuits as parts: what a circuit of fixed shape stages when it is
//! built, and how a row of equal parts is built.

use vstd::prelude::*;
use crate::creator::NodeCreator;
use crate::netlist::Netlist;
use crate::sim::NodeIndex;

verus! {

/// A circuit of fixed shape, known by the handles it exposes.
pub trait Part: Sized {
    /// The number of node indices that building one such part issues.
    spec fn size() -> nat;

    /// The number of node indices that building one such part issues.
    fn node_count() -> (n: usize)
        ensures
            n == Self::size(),
    ;

    /// The handles of the part that is built on the session `nl`.
    spec fn at(nl: Netlist) -> Self;

    /// The session `nl` after one such part was built on it.
    spec fn staged(nl: Netlist) -> Netlist;

    /// Building one such part issues as many node indices as its size says.
    proof fn lemma_size(nl: Netlist)
        ensures
            Self::staged(nl).next == nl.next + Self::size(),
    ;

    /// Builds one such part.
    fn build(creator: &mut NodeCreator) -> (part: Self)
        requires
            old(creator)@.next + Self::size() <= usize::MAX,
        ensures
            part == Self::at(old(creator)@),
            final(creator)@ == Self::staged(old(creator)@),
            final(creator)@.next == old(creator)@.next + Self::size(),
    ;
}

/// The session `nl` after `count` parts of one kind were built on it, one
/// after the other.
#[verifier::opaque]
pub open spec fn repeated<P: Part>(nl: Netlist, count: nat) -> Netlist
    decreases count,
{
    if count == 0 {
        nl
    } else {
        P::staged(repeated::<P>(nl, (count - 1) as nat))
    }
}

/// The handles of the `i`-th part of a row built on `nl`, counting from zero.
#[verifier::opaque]
pub open spec fn member<P: Part>(nl: Netlist, i: nat) -> P {
    P::at(repeated::<P>(nl, i))
}

/// The handles of a row of `count` parts built on `nl`.
pub open spec fn row<P: Part>(nl: Netlist, count: nat) -> Seq<P> {
    Seq::new(count, |i: int| member::<P>(nl, i as nat))
}

/// A row grows by one part at a time, and each member is the part built on
/// the row before it.
pub proof fn lemma_row_step<P: Part>(nl: Netlist, i: nat)
    ensures
        repeated::<P>(nl, 0) == nl,
        repeated::<P>(nl, i + 1) == P::staged(repeated::<P>(nl, i)),
        member::<P>(nl, i) == P::at(repeated::<P>(nl, i)),
{
    reveal(repeated);
    reveal(member);
}

/// Unfolds a row of up to four parts built one after the other.
pub proof fn lemma_row_of_four<P: Part>(nl: Netlist)
    ensures
        repeated::<P>(nl, 0) == nl,
        repeated::<P>(nl, 1) == P::staged(nl),
        repeated::<P>(nl, 2) == P::staged(P::staged(nl)),
        repeated::<P>(nl, 3) == P::staged(P::staged(P::staged(nl))),
        repeated::<P>(nl, 4) == P::staged(P::staged(P::staged(P::staged(nl)))),
        member::<P>(nl, 0) == P::at(nl),
        member::<P>(nl, 1) == P::at(P::staged(nl)),
        member::<P>(nl, 2) == P::at(P::staged(P::staged(nl))),
        member::<P>(nl, 3) == P::at(P::staged(P::staged(P::staged(nl)))),
{
    lemma_row_step::<P>(nl, 0);
    lemma_row_step::<P>(nl, 1);
    lemma_row_step::<P>(nl, 2);
    lemma_row_step::<P>(nl, 3);
}

/// A row of parts takes as many node indices as its parts together.
pub proof fn lemma_row_next<P: Part>(nl: Netlist, count: nat)
    ensures
        repeated::<P>(nl, count).next == nl.next + count * P::size(),
    decreases count,
{
    lemma_row_step::<P>(nl, 0);
    if count > 0 {
        lemma_row_next::<P>(nl, (count - 1) as nat);
        lemma_row_step::<P>(nl, (count - 1) as nat);
        P::lemma_size(repeated::<P>(nl, (count - 1) as nat));
        assert(count * P::size() == (count - 1) * P::size() + P::size()) by (nonlinear_arith);
    } else {
        assert(count * P::size() == 0) by (nonlinear_arith)
            requires
                count == 0,
        ;
    }
}

/// Builds `count` parts of one kind, one after the other.
pub fn replicate<P: Part>(creator: &mut NodeCreator, count: usize) -> (parts: Vec<P>)
    requires
        old(creator)@.next + count * P::size() <= usize::MAX,
    ensures
        parts@ == row::<P>(old(creator)@, count as nat),
        final(creator)@ == repeated::<P>(old(creator)@, count as nat),
        final(creator)@.next == old(creator)@.next + count * P::size(),
{
    let mut parts: Vec<P> = Vec::new();
    let mut i: usize = 0;
    proof {
        lemma_row_step::<P>(old(creator)@, 0);
    }
    while i < count
        invariant
            i <= count,
            old(creator)@.next + count * P::size() <= usize::MAX,
            parts@ == row::<P>(old(creator)@, i as nat),
            creator@ == repeated::<P>(old(creator)@, i as nat),
            creator@.next == old(creator)@.next + i * P::size(),
        decreases count - i,
    {
        proof {
            lemma_row_step::<P>(old(creator)@, i as nat);
            assert((i + 1) * P::size() == i * P::size() + P::size()) by (nonlinear_arith);
            assert((i + 1) * P::size() <= count * P::size()) by (nonlinear_arith)
                requires
                    i + 1 <= count,
            ;
        }
        let part = P::build(creator);
        parts.push(part);
        proof {
            assert(parts@ =~= row::<P>(old(creator)@, (i + 1) as nat));
        }
        i = i + 1;
    }
    parts
}

/// Whether `n` is the number `size`, or nothing because `size` is more
/// than can be counted.
pub open spec fn counts(n: Option<usize>, size: int) -> bool {
    match n {
        Some(v) => v == size,
        None => size > usize::MAX,
    }
}

/// The sum of two numbers of nodes, if it can be counted.
pub fn plus(a: Option<usize>, b: Option<usize>) -> (n: Option<usize>)
    ensures
        forall|x: int, y: int| #![trigger counts(a, x), counts(b, y)] counts(a, x) && counts(b, y) ==> counts(n, x + y),
{
    match (a, b) {
        (Some(x), Some(y)) => x.checked_add(y),
        _ => None,
    }
}

/// The number of node indices that a row of `count` parts of one kind
/// takes, if it can be counted.
pub fn row_node_count<P: Part>(count: usize) -> (n: Option<usize>)
    ensures
        counts(n, count * P::size()),
{
    count.checked_mul(P::node_count())
}

/// The node indices `first`, `first + 1`, and so on, `count` of them.
pub open spec fn run_of(first: nat, count: nat) -> Seq<NodeIndex> {
    Seq::new(count, |i: int| NodeIndex((first + i) as usize))
}

/// Issues `count` node indices.
pub fn new_nodes(creator: &mut NodeCreator, count: usize) -> (nodes: Vec<NodeIndex>)
    requires
        old(creator)@.next + count <= usize::MAX,
    ensures
        nodes@ == run_of(old(creator)@.next, count as nat),
        final(creator)@ == old(creator)@.with_nodes(count as nat),
{
    let mut nodes: Vec<NodeIndex> = Vec::new();
    let mut i: usize = 0;
    while i < count
        invariant
            i <= count,
            old(creator)@.next + count <= usize::MAX,
            nodes@ == run_of(old(creator)@.next, i as nat),
            creator@ == old(creator)@.with_nodes(i as nat),
        decreases count - i,
    {
        let n = creator.new_node();
        nodes.push(n);
        proof {
            assert(nodes@ =~= run_of(old(creator)@.next, (i + 1) as nat));
        }
        i = i + 1;
    }
    nodes
}

} // verus!
