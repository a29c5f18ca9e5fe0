//! Nesting lines by their indentation.

use vstd::prelude::*;

verus! {

/// A line that can hold the lines indented below it.
pub trait IndentNode: Sized + View {
    /// What a finished line becomes.
    type Output: View;

    /// The indentation of a line.
    spec fn level_of(n: Self::V) -> nat;

    /// What a line becomes once its block is complete.
    spec fn output_of(n: Self::V) -> <Self::Output as View>::V;

    /// A line given the block indented below it, or why it cannot hold one.
    spec fn adopt_spec(n: Self::V, children: Seq<<Self::Output as View>::V>) -> Result<Self::V, Seq<char>>;

    /// What a run of sibling lines becomes.
    spec fn finish_spec(siblings: Seq<<Self::Output as View>::V>) -> Seq<<Self::Output as View>::V>;

    fn level(&self) -> (r: usize)
        ensures
            r == Self::level_of(self@),
    ;

    fn into_output(self) -> (r: Self::Output)
        ensures
            r@ == Self::output_of(self@),
    ;

    fn adopt(&mut self, children: Vec<Self::Output>) -> (r: Result<(), Vec<char>>)
        ensures
            match Self::adopt_spec(old(self)@, outputs_view(children@)) {
                Ok(n) => r is Ok && final(self)@ == n,
                Err(e) => r matches Err(m) && m@ == e,
            },
    ;

    fn finish_siblings(siblings: Vec<Self::Output>) -> (r: Vec<Self::Output>)
        ensures
            outputs_view(r@) == Self::finish_spec(outputs_view(siblings@)),
    ;
}

/// The views of some outputs.
pub open spec fn outputs_view<O: View>(v: Seq<O>) -> Seq<O::V> {
    v.map_values(|o: O| o@)
}

/// The views of some lines.
pub open spec fn nodes_view<N: View>(v: Seq<N>) -> Seq<N::V> {
    v.map_values(|n: N| n@)
}


/// The state of nesting: open lines, innermost last, and finished roots.
pub type Nesting<S, O> = (Seq<S>, Seq<O>);

/// How many lines at the top of `stack` have indentation `level`.
pub open spec fn top_run<N: IndentNode>(stack: Seq<N::V>, level: nat) -> nat
    decreases stack.len(),
{
    if stack.len() > 0 && N::level_of(stack.last()) == level {
        1 + top_run::<N>(stack.drop_last(), level)
    } else {
        0
    }
}

/// `top_run` is at most the length of the stack, and at least one where the
/// top line has that level.
pub proof fn lemma_top_run_bounds<N: IndentNode>(stack: Seq<N::V>, level: nat)
    ensures
        top_run::<N>(stack, level) <= stack.len(),
        stack.len() > 0 && N::level_of(stack.last()) == level ==> top_run::<N>(stack, level) >= 1,
    decreases stack.len(),
{
    if stack.len() > 0 {
        lemma_top_run_bounds::<N>(stack.drop_last(), level);
    }
}

/// `top_run` counts back to the first line of another level.
pub proof fn lemma_top_run<N: IndentNode>(stack: Seq<N::V>, level: nat, k: nat)
    requires
        k <= stack.len(),
        forall|i: int| stack.len() - k <= i < stack.len() ==> N::level_of(#[trigger] stack[i]) == level,
        k == stack.len() || N::level_of(stack[stack.len() - k - 1]) != level,
    ensures
        top_run::<N>(stack, level) == k,
    decreases k,
{
    if k > 0 {
        let s = stack.drop_last();
        assert forall|i: int| s.len() - (k - 1) <= i < s.len() implies N::level_of(#[trigger] s[i]) == level by {
            assert(s[i] == stack[i]);
        }
        if k - 1 < s.len() {
            assert(s[s.len() - (k - 1) - 1] == stack[stack.len() - k - 1]);
        }
        assert(N::level_of(stack[stack.len() - 1]) == level);
        lemma_top_run::<N>(s, level, (k - 1) as nat);
    } else if stack.len() > 0 {
        assert(N::level_of(stack[stack.len() - 1]) != level);
    }
}

/// Closing the innermost group of siblings: they become the block of the
/// line below them, or roots where there is none.
pub open spec fn collapse_spec<N: IndentNode>(
    stack: Seq<N::V>,
    roots: Seq<<N::Output as View>::V>,
) -> Result<Nesting<N::V, <N::Output as View>::V>, Seq<char>> {
    let k = top_run::<N>(stack, N::level_of(stack.last()));
    let rest = stack.take(stack.len() - k);
    let siblings = N::finish_spec(stack.skip(stack.len() - k).map_values(|n: N::V| N::output_of(n)));
    if rest.len() > 0 {
        match N::adopt_spec(rest.last(), siblings) {
            Ok(p) => Ok((rest.drop_last().push(p), roots)),
            Err(e) => Err(e),
        }
    } else {
        Ok((rest, roots + siblings))
    }
}

/// Closing groups while the top line is indented deeper than `bound` (all of
/// them where there is no bound).
pub open spec fn unwind<N: IndentNode>(
    stack: Seq<N::V>,
    roots: Seq<<N::Output as View>::V>,
    bound: Option<nat>,
) -> Result<Nesting<N::V, <N::Output as View>::V>, Seq<char>>
    decreases stack.len(),
{
    if stack.len() == 0 {
        Ok((stack, roots))
    } else if bound matches Some(b) && b >= N::level_of(stack.last()) {
        Ok((stack, roots))
    } else {
        proof {
            lemma_top_run_bounds::<N>(stack, N::level_of(stack.last()));
        }
        match collapse_spec::<N>(stack, roots) {
            Ok(next) => unwind::<N>(next.0, next.1, bound),
            Err(e) => Err(e),
        }
    }
}

/// Reading the lines in order.
pub open spec fn build_from<N: IndentNode>(nodes: Seq<N::V>) -> Result<
    Nesting<N::V, <N::Output as View>::V>,
    Seq<char>,
>
    decreases nodes.len(),
{
    if nodes.len() == 0 {
        Ok((Seq::empty(), Seq::empty()))
    } else {
        match build_from::<N>(nodes.drop_last()) {
            Ok(st) => match unwind::<N>(st.0, st.1, Some(N::level_of(nodes.last()))) {
                Ok(next) => Ok((next.0.push(nodes.last()), next.1)),
                Err(e) => Err(e),
            },
            Err(e) => Err(e),
        }
    }
}

/// The trees that indented lines make.
pub open spec fn build_spec<N: IndentNode>(nodes: Seq<N::V>) -> Result<
    Seq<<N::Output as View>::V>,
    Seq<char>,
> {
    match build_from::<N>(nodes) {
        Ok(st) => match unwind::<N>(st.0, st.1, None) {
            Ok(done) => Ok(done.1),
            Err(e) => Err(e),
        },
        Err(e) => Err(e),
    }
}

/// Reading lines of one indentation keeps them all open, in order.
proof fn lemma_build_level<N: IndentNode>(nodes: Seq<N::V>, level: nat)
    requires
        forall|i: int| 0 <= i < nodes.len() ==> N::level_of(#[trigger] nodes[i]) == level,
    ensures
        build_from::<N>(nodes) == Ok::<Nesting<N::V, <N::Output as View>::V>, Seq<char>>(
            (nodes, Seq::empty()),
        ),
    decreases nodes.len(),
{
    if nodes.len() > 0 {
        let init = nodes.drop_last();
        assert forall|i: int| 0 <= i < init.len() implies N::level_of(#[trigger] init[i]) == level by {
            assert(init[i] == nodes[i]);
        }
        lemma_build_level::<N>(init, level);
        assert(N::level_of(nodes.last()) == level);
        if init.len() > 0 {
            assert(N::level_of(init.last()) == level);
        }
        let empty = Seq::<<N::Output as View>::V>::empty();
        assert(unwind::<N>(init, empty, Some(level)) == Ok::<Nesting<N::V, <N::Output as View>::V>, Seq<char>>(
            (init, empty),
        ));
        assert(init.push(nodes.last()) =~= nodes);
        assert(build_from::<N>(nodes) == Ok::<Nesting<N::V, <N::Output as View>::V>, Seq<char>>(
            (init.push(nodes.last()), empty),
        ));
    } else {
        assert(nodes =~= Seq::<N::V>::empty());
    }
}

/// Lines that all have the same indentation nest nothing: they become roots
/// side by side, in order, finished as one run of siblings.
pub proof fn law_one_level_lines_are_siblings<N: IndentNode>(nodes: Seq<N::V>, level: nat)
    requires
        nodes.len() > 0,
        forall|i: int| 0 <= i < nodes.len() ==> N::level_of(#[trigger] nodes[i]) == level,
    ensures
        build_spec::<N>(nodes) == Ok::<Seq<<N::Output as View>::V>, Seq<char>>(
            N::finish_spec(nodes.map_values(|n: N::V| N::output_of(n))),
        ),
{
    lemma_build_level::<N>(nodes, level);
    lemma_top_run::<N>(nodes, level, nodes.len());
    assert(nodes.skip(0) =~= nodes);
    assert(nodes.take(0) =~= Seq::<N::V>::empty());
    let siblings = N::finish_spec(nodes.map_values(|n: N::V| N::output_of(n)));
    let empty = Seq::<<N::Output as View>::V>::empty();
    assert(empty + siblings =~= siblings);
    assert(collapse_spec::<N>(nodes, empty) == Ok::<Nesting<N::V, <N::Output as View>::V>, Seq<char>>(
        (Seq::<N::V>::empty(), siblings),
    ));
    assert(unwind::<N>(Seq::<N::V>::empty(), siblings, None) == Ok::<Nesting<N::V, <N::Output as View>::V>, Seq<char>>(
        (Seq::<N::V>::empty(), siblings),
    ));
}

/// A new line closes every open line indented deeper than itself: once
/// the groups above a bound are closed, the innermost open line, if any,
/// is indented no deeper than the bound.
pub proof fn law_unwind_closes_deeper<N: IndentNode>(
    stack: Seq<N::V>,
    roots: Seq<<N::Output as View>::V>,
    bound: nat,
)
    ensures
        unwind::<N>(stack, roots, Some(bound)) matches Ok(st) ==> st.0.len() == 0 || N::level_of(st.0.last())
            <= bound,
    decreases stack.len(),
{
    if stack.len() > 0 && !(bound >= N::level_of(stack.last())) {
        lemma_top_run_bounds::<N>(stack, N::level_of(stack.last()));
        match collapse_spec::<N>(stack, roots) {
            Ok(next) => {
                assert(next.0.len() < stack.len());
                law_unwind_closes_deeper::<N>(next.0, next.1, bound);
            },
            Err(_) => {},
        }
    }
}

/// Each line read is opened on top of lines no deeper than itself: it can
/// only come to nest under an earlier line of smaller or equal indentation,
/// never under a deeper one.
pub proof fn law_line_opens_over_shallower<N: IndentNode>(nodes: Seq<N::V>)
    requires
        nodes.len() > 0,
    ensures
        build_from::<N>(nodes) matches Ok(st) ==> {
            &&& st.0.len() > 0
            &&& st.0.last() == nodes.last()
            &&& st.0.len() >= 2 ==> N::level_of(st.0[st.0.len() - 2]) <= N::level_of(nodes.last())
        },
{
    match build_from::<N>(nodes.drop_last()) {
        Ok(prev) => {
            law_unwind_closes_deeper::<N>(prev.0, prev.1, N::level_of(nodes.last()));
            match unwind::<N>(prev.0, prev.1, Some(N::level_of(nodes.last()))) {
                Ok(next) => {
                    let opened = next.0.push(nodes.last());
                    if opened.len() >= 2 {
                        assert(opened[opened.len() - 2] == next.0.last());
                    }
                },
                Err(_) => {},
            }
        },
        Err(_) => {},
    }
}

/// `v` in reverse order.
pub fn reversed<T>(v: Vec<T>) -> (r: Vec<T>)
    ensures
        r@ == v@.reverse(),
{
    let ghost orig = v@;
    let mut v = v;
    let mut r: Vec<T> = Vec::new();
    while v.len() > 0
        invariant
            v@.len() <= orig.len(),
            v@ == orig.take(v@.len() as int),
            r@.len() == orig.len() - v@.len(),
            forall|i: int| 0 <= i < r@.len() ==> #[trigger] r@[i] == orig[orig.len() - 1 - i],
        decreases v.len(),
    {
        let ghost n = v@.len();
        let x = v.pop().unwrap();
        proof {
            assert(x == orig[n - 1]);
            assert(v@ =~= orig.take(n - 1));
        }
        r.push(x);
    }
    assert(r@ =~= orig.reverse());
    r
}

pub struct Indent;

/// The view of a nesting result.
pub open spec fn outputs_result<O: View>(r: Result<Vec<O>, Vec<char>>) -> Result<Seq<O::V>, Seq<char>> {
    match r {
        Ok(v) => Ok(outputs_view(v@)),
        Err(e) => Err(e@),
    }
}

impl Indent {
    /// Nests lines by indentation: each run of lines indented deeper than
    /// the line above becomes that line's block.
    pub fn build<N: IndentNode>(nodes: Vec<N>) -> (r: Result<Vec<N::Output>, Vec<char>>)
        ensures
            outputs_result(r) == build_spec::<N>(nodes_view(nodes@)),
    {
        let ghost all = nodes_view(nodes@);
        let mut pending = reversed(nodes);
        let mut stack: Vec<N> = Vec::new();
        let mut roots: Vec<N::Output> = Vec::new();
        let ghost mut done: int = 0;
        proof {
            assert(all.take(0) =~= Seq::<N::V>::empty());
            assert(nodes_view(stack@) =~= Seq::<N::V>::empty());
            assert(outputs_view(roots@) =~= Seq::<<N::Output as View>::V>::empty());
        }
        while pending.len() > 0
            invariant
                all == nodes_view(nodes@),
                0 <= done <= all.len(),
                pending@.len() == all.len() - done,
                forall|i: int| 0 <= i < pending@.len() ==> #[trigger] pending@[i]@ == all[all.len() - 1 - i],
                build_from::<N>(all.take(done)) == Ok::<Nesting<N::V, <N::Output as View>::V>, Seq<char>>(
                    (nodes_view(stack@), outputs_view(roots@)),
                ),
            decreases pending.len(),
        {
            let node = match pending.pop() {
                Some(n) => n,
                None => {
                    assert(false);
                    return Err(Vec::new());
                },
            };
            assert(node@ == all[done]);
            let level = node.level();
            proof {
                assert(all.take(done + 1).drop_last() =~= all.take(done));
                assert(all.take(done + 1).last() == all[done]);
            }
            match Self::unwind(&mut stack, &mut roots, Some(level)) {
                Ok(()) => {},
                Err(e) => {
                    proof {
                        Self::lemma_build_err::<N>(all, done + 1);
                    }
                    return Err(e);
                },
            }
            let ghost before = stack@;
            stack.push(node);
            proof {
                assert(nodes_view(stack@) =~= nodes_view(before).push(all[done]));
                done = done + 1;
            }
        }
        proof {
            assert(all.take(done) =~= all);
        }
        match Self::unwind(&mut stack, &mut roots, None) {
            Ok(()) => Ok(roots),
            Err(e) => Err(e),
        }
    }

    /// Once reading fails, it stays failed.
    proof fn lemma_build_err<N: IndentNode>(all: Seq<N::V>, k: int)
        requires
            0 <= k <= all.len(),
            build_from::<N>(all.take(k)) is Err,
        ensures
            build_spec::<N>(all) is Err && build_spec::<N>(all)->Err_0 == build_from::<N>(all.take(k))->Err_0,
        decreases all.len() - k,
    {
        if k < all.len() {
            assert(all.take(k + 1).drop_last() =~= all.take(k));
            Self::lemma_build_err::<N>(all, k + 1);
        } else {
            assert(all.take(k) =~= all);
        }
    }

    /// Closes groups while the top line is deeper than `bound`.
    fn unwind<N: IndentNode>(
        stack: &mut Vec<N>,
        roots: &mut Vec<N::Output>,
        bound: Option<usize>,
    ) -> (r: Result<(), Vec<char>>)
        ensures
            match unwind::<N>(
                nodes_view(old(stack)@),
                outputs_view(old(roots)@),
                match bound {
                    Some(b) => Some(b as nat),
                    None => None,
                },
            ) {
                Ok(st) => r is Ok && nodes_view(final(stack)@) == st.0 && outputs_view(final(roots)@)
                    == st.1,
                Err(e) => r matches Err(m) && m@ == e,
            },
    {
        let ghost b = match bound {
            Some(b) => Some(b as nat),
            None => None::<nat>,
        };
        let ghost target = unwind::<N>(nodes_view(stack@), outputs_view(roots@), b);
        loop
            invariant
                target == unwind::<N>(nodes_view(stack@), outputs_view(roots@), b),
                target == unwind::<N>(nodes_view(old(stack)@), outputs_view(old(roots)@), b),
                b == match bound {
                    Some(b) => Some(b as nat),
                    None => None::<nat>,
                },
            decreases stack@.len(),
        {
            if stack.len() == 0 {
                assert(nodes_view(stack@).len() == 0);
                return Ok(());
            }
            let top = stack[stack.len() - 1].level();
            proof {
                assert(nodes_view(stack@).last() == stack@[stack@.len() - 1]@);
            }
            match bound {
                Some(limit) => {
                    if limit >= top {
                        return Ok(());
                    }
                },
                None => {},
            }
            let ghost len0 = stack@.len();
            proof {
                lemma_top_run_bounds::<N>(nodes_view(stack@), N::level_of(nodes_view(stack@).last()));
            }
            match Self::collapse(stack, roots) {
                Ok(()) => {},
                Err(e) => return Err(e),
            }
        }
    }

    /// Closes the innermost group of siblings.
    fn collapse<N: IndentNode>(stack: &mut Vec<N>, roots: &mut Vec<N::Output>) -> (r: Result<(), Vec<char>>)
        requires
            old(stack)@.len() > 0,
        ensures
            match collapse_spec::<N>(nodes_view(old(stack)@), outputs_view(old(roots)@)) {
                Ok(st) => r is Ok && nodes_view(final(stack)@) == st.0 && outputs_view(final(roots)@)
                    == st.1,
                Err(e) => r matches Err(m) && m@ == e,
            },
            final(stack)@.len() < old(stack)@.len(),
    {
        let ghost s0 = nodes_view(stack@);
        let ghost n0 = stack@.len();
        let leaf_level = stack[stack.len() - 1].level();
        proof {
            assert(s0.last() == stack@[n0 - 1]@);
        }
        let mut popped: Vec<N::Output> = Vec::new();
        loop
            invariant_except_break
                stack@.len() < n0 || popped@.len() == 0,
            invariant
                s0 == nodes_view(old(stack)@),
                n0 == s0.len(),
                n0 > 0,
                leaf_level == N::level_of(s0.last()),
                stack@.len() <= n0,
                nodes_view(stack@) == s0.take(stack@.len() as int),
                forall|i: int| stack@.len() <= i < n0 ==> N::level_of(#[trigger] s0[i]) == leaf_level,
                popped@.len() == n0 - stack@.len(),
                forall|i: int| 0 <= i < popped@.len() ==> #[trigger] popped@[i]@ == N::output_of(s0[n0 - 1 - i]),
            ensures
                stack@.len() < n0,
                stack@.len() == 0 || N::level_of(s0[stack@.len() - 1]) != leaf_level,
            decreases stack@.len(),
        {
            if stack.len() == 0 {
                break;
            }
            let level = stack[stack.len() - 1].level();
            proof {
                assert(s0.take(stack@.len() as int)[stack@.len() - 1] == stack@[stack@.len() - 1]@);
                assert(nodes_view(stack@)[stack@.len() - 1] == stack@[stack@.len() - 1]@);
            }
            if level != leaf_level {
                break;
            }
            let ghost m = stack@.len();
            match stack.pop() {
                Some(node) => {
                    let out = node.into_output();
                    popped.push(out);
                    proof {
                        assert(nodes_view(stack@) =~= s0.take(m - 1));
                    }
                },
                None => {},
            }
        }
        let ghost k = n0 - stack@.len();
        proof {
            if stack@.len() > 0 {
                assert(nodes_view(stack@)[stack@.len() - 1] == s0[stack@.len() - 1]);
            }
            lemma_top_run::<N>(s0, leaf_level as nat, k as nat);
        }
        let siblings = reversed(popped);
        proof {
            let expected = s0.skip(n0 - k).map_values(|n: N::V| N::output_of(n));
            assert(outputs_view(siblings@) =~= expected) by {
                assert forall|i: int| 0 <= i < k implies #[trigger] outputs_view(siblings@)[i] == expected[i] by {
                    assert(siblings@[i] == popped@[k - 1 - i]);
                }
            }
        }
        let siblings = N::finish_siblings(siblings);
        let ghost rest = s0.take(n0 - k);
        match stack.pop() {
            Some(mut parent) => {
                proof {
                    assert(parent@ == rest.last());
                    assert(nodes_view(stack@) =~= rest.drop_last());
                }
                let adopted = parent.adopt(siblings);
                let ghost before = stack@;
                stack.push(parent);
                proof {
                    assert(nodes_view(stack@) =~= nodes_view(before).push(parent@));
                }
                adopted
            },
            None => {
                let mut siblings = siblings;
                let ghost r0 = roots@;
                let ghost s1 = siblings@;
                roots.append(&mut siblings);
                proof {
                    assert(outputs_view(roots@) =~= outputs_view(r0) + outputs_view(s1));
                }
                Ok(())
            },
        }
    }
}
} // verus!
