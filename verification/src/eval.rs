//! The evaluator: enumerates the lower neighbours of an expression — one
//! rewrite of some window by the first definition that applies there —
//! and searches the rewrite graph for every reachable form. The visited
//! set only ever grows, and when the frontier empties it holds exactly
//! the expressions reachable from the input.

use vstd::prelude::*;

use crate::definition::{spec_transform, Definition, DefinitionView};
use crate::matcher::subvec;
use crate::token::{Expression, Token, TokenView};

verus! {

/// What the first definition whose lowering applies to the whole window
/// produces; nothing when no definition applies.
pub open spec fn first_lowering(defs: Seq<DefinitionView>, w: Seq<TokenView>) -> Option<
    Seq<TokenView>,
>
    decreases defs.len(),
{
    if defs.len() == 0 {
        None
    } else {
        match spec_transform(defs[0].high, defs[0].low, w) {
            Option::Some(r) => Some(r),
            Option::None => first_lowering(defs.drop_first(), w),
        }
    }
}

/// A window of `e` to which some definition's lowering applies.
pub open spec fn window_applies(
    defs: Seq<DefinitionView>,
    e: Seq<TokenView>,
    size: int,
    start: int,
) -> bool {
    &&& 1 <= size <= e.len()
    &&& 0 <= start <= e.len() - size
    &&& first_lowering(defs, e.subrange(start, start + size)) is Some
}

/// The expression obtained by rewriting the window at `start` of width
/// `size` and splicing the result back in.
pub open spec fn splice_at(
    defs: Seq<DefinitionView>,
    e: Seq<TokenView>,
    size: int,
    start: int,
) -> Seq<TokenView> {
    e.take(start) + first_lowering(defs, e.subrange(start, start + size))->Some_0 + e.skip(
        start + size,
    )
}

/// A lower neighbour: one window rewrite of `e`.
pub open spec fn is_neighbour(
    defs: Seq<DefinitionView>,
    e: Seq<TokenView>,
    x: Seq<TokenView>,
) -> bool {
    exists|size: int, start: int|
        window_applies(defs, e, size, start) && x == splice_at(defs, e, size, start)
}

/// An expression occurs in a sequence of expression values.
pub open spec fn expr_in(s: Seq<Seq<TokenView>>, x: Seq<TokenView>) -> bool {
    exists|i: int| 0 <= i < s.len() && s[i] == x
}

/// `to` is reached from `from` by a chain of neighbour steps.
pub open spec fn path_connects(
    defs: Seq<DefinitionView>,
    path: Seq<Seq<TokenView>>,
    from: Seq<TokenView>,
    to: Seq<TokenView>,
) -> bool {
    &&& path.len() >= 1
    &&& path[0] == from
    &&& path.last() == to
    &&& forall|i: int|
        0 <= i < path.len() - 1 ==> is_neighbour(defs, path[i], #[trigger] path[i + 1])
}

/// Some chain of neighbour steps leads from `from` to `to`.
pub open spec fn reachable(
    defs: Seq<DefinitionView>,
    from: Seq<TokenView>,
    to: Seq<TokenView>,
) -> bool {
    exists|path: Seq<Seq<TokenView>>| path_connects(defs, path, from, to)
}

/// Every expression reaches itself.
pub proof fn lemma_reachable_refl(defs: Seq<DefinitionView>, e: Seq<TokenView>)
    ensures
        reachable(defs, e, e),
{
    let path = seq![e];
    assert(path_connects(defs, path, e, e));
}

/// Reachability extends along one more neighbour step.
pub proof fn lemma_reachable_step(
    defs: Seq<DefinitionView>,
    from: Seq<TokenView>,
    mid: Seq<TokenView>,
    to: Seq<TokenView>,
)
    requires
        reachable(defs, from, mid),
        is_neighbour(defs, mid, to),
    ensures
        reachable(defs, from, to),
{
    let path = choose|path: Seq<Seq<TokenView>>| path_connects(defs, path, from, mid);
    let longer = path.push(to);
    assert(path_connects(defs, longer, from, to)) by {
        assert(longer[0] == path[0]);
        assert(longer.last() == to);
        assert forall|i: int|
            0 <= i < longer.len() - 1 implies is_neighbour(defs, longer[i], #[trigger] longer[i
            + 1]) by {
            if i < path.len() - 1 {
                assert(longer[i] == path[i]);
                assert(longer[i + 1] == path[i + 1]);
            } else {
                assert(longer[i] == path.last());
                assert(longer[i + 1] == to);
            }
        }
    }
}

/// A set that holds the root and is closed under neighbour steps holds
/// everything reachable from the root.
pub proof fn lemma_closed_holds_reachable(
    defs: Seq<DefinitionView>,
    root: Seq<TokenView>,
    vis: Seq<Seq<TokenView>>,
    x: Seq<TokenView>,
)
    requires
        expr_in(vis, root),
        forall|v: Seq<TokenView>, n: Seq<TokenView>|
            expr_in(vis, v) && #[trigger] is_neighbour(defs, v, n) ==> expr_in(vis, n),
        reachable(defs, root, x),
    ensures
        expr_in(vis, x),
{
    let path = choose|path: Seq<Seq<TokenView>>| path_connects(defs, path, root, x);
    lemma_path_stays_in(defs, root, vis, path, path.len() - 1);
}

proof fn lemma_path_stays_in(
    defs: Seq<DefinitionView>,
    root: Seq<TokenView>,
    vis: Seq<Seq<TokenView>>,
    path: Seq<Seq<TokenView>>,
    upto: int,
)
    requires
        expr_in(vis, root),
        forall|v: Seq<TokenView>, n: Seq<TokenView>|
            expr_in(vis, v) && #[trigger] is_neighbour(defs, v, n) ==> expr_in(vis, n),
        path.len() >= 1,
        path[0] == root,
        forall|i: int|
            0 <= i < path.len() - 1 ==> is_neighbour(defs, path[i], #[trigger] path[i + 1]),
        0 <= upto < path.len(),
    ensures
        expr_in(vis, path[upto]),
    decreases upto,
{
    if upto == 0 {
    } else {
        lemma_path_stays_in(defs, root, vis, path, upto - 1);
        assert(path[(upto - 1) + 1] == path[upto]);
        assert(is_neighbour(defs, path[upto - 1], path[upto]));
    }
}

/// Whether an equal expression already stands in the vector.
pub fn contains_expr(v: &Vec<Expression>, e: &Expression) -> (r: bool)
    ensures
        r == expr_in(v.deep_view(), e@),
{
    let mut i: usize = 0;
    while i < v.len()
        invariant
            i <= v@.len(),
            forall|j: int| 0 <= j < i ==> v.deep_view()[j] != e@,
        decreases v@.len() - i,
    {
        if crate::token::expr_eq(&v[i], e) {
            proof {
                assert(v.deep_view()[i as int] == e@);
            }
            return true;
        }
        i = i + 1;
    }
    false
}

/// The first definition, in runtime order, whose lowering applies to the
/// whole window.
fn lower_first(defs: &Vec<Definition>, w: &Vec<Token>) -> (r: Option<Expression>)
    ensures
        match r {
            Some(out) => first_lowering(defs.deep_view(), w.deep_view()) == Some(out@),
            None => first_lowering(defs.deep_view(), w.deep_view()) is None,
        },
{
    let ghost dv = defs.deep_view();
    let mut i: usize = 0;
    proof {
        assert(dv.skip(0) =~= dv);
    }
    while i < defs.len()
        invariant
            i <= dv.len(),
            dv == defs.deep_view(),
            first_lowering(dv, w.deep_view()) == first_lowering(dv.skip(i as int), w.deep_view()),
        decreases dv.len() - i,
    {
        let ghost rest = dv.skip(i as int);
        proof {
            assert(rest[0] == dv[i as int]);
            assert(rest.drop_first() =~= dv.skip(i + 1));
        }
        if let Some(out) = defs[i].lower(w) {
            return Some(out);
        }
        i = i + 1;
    }
    proof {
        assert(dv.skip(dv.len() as int).len() == 0);
    }
    None
}

/// The rewrites of windows of one size, from a starting position on:
/// one entry per window the first applicable definition rewrites.
pub open spec fn neighbour_row(
    defs: Seq<DefinitionView>,
    e: Seq<TokenView>,
    size: int,
    start: int,
) -> Seq<Seq<TokenView>>
    decreases e.len() - start,
{
    if size < 1 || size > e.len() || start < 0 || start > e.len() - size {
        Seq::empty()
    } else {
        (if first_lowering(defs, e.subrange(start, start + size)) is Some {
            seq![splice_at(defs, e, size, start)]
        } else {
            Seq::empty()
        }) + neighbour_row(defs, e, size, start + 1)
    }
}

/// The rows of all window sizes from `size` up.
pub open spec fn neighbour_rows_from(
    defs: Seq<DefinitionView>,
    e: Seq<TokenView>,
    size: int,
) -> Seq<Seq<TokenView>>
    decreases e.len() - size + 1,
{
    if size < 1 || size > e.len() {
        Seq::empty()
    } else {
        neighbour_row(defs, e, size, 0) + neighbour_rows_from(defs, e, size + 1)
    }
}

/// The exact list of lower neighbours, in enumeration order: window
/// sizes ascending, and starting positions ascending within a size.
pub open spec fn neighbours_list(defs: Seq<DefinitionView>, e: Seq<TokenView>) -> Seq<
    Seq<TokenView>,
> {
    neighbour_rows_from(defs, e, 1)
}

/// Every lower neighbour of `e`: for each window size and position, the
/// first applicable definition's rewrite, spliced back in.
pub fn get_lower_neighbours(defs: &Vec<Definition>, e: &Expression) -> (r: Vec<Expression>)
    ensures
        r.deep_view() == neighbours_list(defs.deep_view(), e@),
        forall|i: int|
            0 <= i < r.deep_view().len() ==> is_neighbour(
                defs.deep_view(),
                e@,
                #[trigger] r.deep_view()[i],
            ),
        forall|size: int, start: int|
            window_applies(defs.deep_view(), e@, size, start) ==> expr_in(
                r.deep_view(),
                #[trigger] splice_at(defs.deep_view(), e@, size, start),
            ),
{
    let ghost dv = defs.deep_view();
    let ghost ev = e@;
    let n = e.tokens.len();
    let mut out: Vec<Expression> = Vec::new();
    let mut w: usize = 0;
    proof {
        assert(Seq::<Seq<TokenView>>::empty() + neighbour_rows_from(dv, ev, 1)
            =~= neighbour_rows_from(dv, ev, 1));
    }
    while w < n
        invariant
            ({
                let size = w + 1;
                1 <= size <= n + 1
            }),
            n == ev.len(),
            dv == defs.deep_view(),
            ev == e@,
            neighbours_list(dv, ev) == out.deep_view() + neighbour_rows_from(dv, ev, w + 1),
            forall|i: int|
                0 <= i < out.deep_view().len() ==> is_neighbour(
                    dv,
                    ev,
                    #[trigger] out.deep_view()[i],
                ),
            forall|sz: int, st: int|
                window_applies(dv, ev, sz, st) && sz < w + 1 ==> expr_in(
                    out.deep_view(),
                    #[trigger] splice_at(dv, ev, sz, st),
                ),
        decreases n - w,
    {
        let size = w + 1;
        let mut start: usize = 0;
        proof {
            assert(neighbour_rows_from(dv, ev, size as int) == neighbour_row(dv, ev, size as int, 0)
                + neighbour_rows_from(dv, ev, size + 1));
            assert(out.deep_view() + (neighbour_row(dv, ev, size as int, 0)
                + neighbour_rows_from(dv, ev, size + 1)) =~= (out.deep_view() + neighbour_row(
                dv,
                ev,
                size as int,
                0,
            )) + neighbour_rows_from(dv, ev, size + 1));
        }
        while start <= n - size
            invariant
                1 <= size <= n,
                0 <= start <= n - size + 1,
                n == ev.len(),
                dv == defs.deep_view(),
                ev == e@,
                neighbours_list(dv, ev) == (out.deep_view() + neighbour_row(
                    dv,
                    ev,
                    size as int,
                    start as int,
                )) + neighbour_rows_from(dv, ev, size + 1),
                forall|i: int|
                    0 <= i < out.deep_view().len() ==> is_neighbour(
                        dv,
                        ev,
                        #[trigger] out.deep_view()[i],
                    ),
                forall|sz: int, st: int|
                    window_applies(dv, ev, sz, st) && sz < size ==> expr_in(
                        out.deep_view(),
                        #[trigger] splice_at(dv, ev, sz, st),
                    ),
                forall|st: int|
                    window_applies(dv, ev, size as int, st) && st < start ==> expr_in(
                        out.deep_view(),
                        #[trigger] splice_at(dv, ev, size as int, st),
                    ),
            decreases n - size - start + 1,
        {
            let window = subvec(&e.tokens, start, start + size);
            proof {
                assert(window.deep_view() =~= ev.subrange(start as int, start + size));
            }
            if let Some(lowered) = lower_first(defs, &window) {
                let mut spliced = subvec(&e.tokens, 0, start);
                proof {
                    assert(spliced.deep_view() =~= ev.take(start as int));
                }
                let ghost before_mid = spliced.deep_view();
                let mut j: usize = 0;
                while j < lowered.tokens.len()
                    invariant
                        j <= lowered.tokens@.len(),
                        spliced.deep_view() =~= before_mid + lowered@.take(j as int),
                    decreases lowered.tokens@.len() - j,
                {
                    let ghost step = spliced.deep_view();
                    spliced.push(lowered.tokens[j].clone());
                    proof {
                        assert(spliced.deep_view() =~= step.push(lowered@[j as int]));
                        assert(lowered@.take(j + 1) =~= lowered@.take(j as int).push(
                            lowered@[j as int],
                        ));
                    }
                    j = j + 1;
                }
                proof {
                    assert(lowered@.take(lowered.tokens@.len() as int) =~= lowered@);
                }
                let ghost before_tail = spliced.deep_view();
                let mut k: usize = start + size;
                while k < e.tokens.len()
                    invariant
                        start + size <= k <= ev.len(),
                        ev == e@,
                        spliced.deep_view() =~= before_tail + ev.subrange(
                            start + size,
                            k as int,
                        ),
                    decreases ev.len() - k,
                {
                    let ghost step = spliced.deep_view();
                    spliced.push(e.tokens[k].clone());
                    proof {
                        assert(spliced.deep_view() =~= step.push(ev[k as int]));
                        assert(ev.subrange(start + size, k + 1) =~= ev.subrange(
                            start + size,
                            k as int,
                        ).push(ev[k as int]));
                    }
                    k = k + 1;
                }
                proof {
                    assert(ev.subrange(start + size, ev.len() as int) =~= ev.skip(start + size));
                }
                let ghost prev = out.deep_view();
                out.push(Expression::new(spliced));
                proof {
                    assert(out.deep_view() =~= prev.push(
                        before_tail + ev.skip(start + size),
                    ));
                    assert(window_applies(dv, ev, size as int, start as int));
                    assert(neighbour_row(dv, ev, size as int, start as int) == seq![
                        splice_at(dv, ev, size as int, start as int),
                    ] + neighbour_row(dv, ev, size as int, start + 1));
                    assert((prev + (seq![splice_at(dv, ev, size as int, start as int)]
                        + neighbour_row(dv, ev, size as int, start + 1))) =~= (out.deep_view()
                        + neighbour_row(dv, ev, size as int, start + 1)));
                    assert((prev + neighbour_row(dv, ev, size as int, start as int)) =~= (prev
                        + (seq![splice_at(dv, ev, size as int, start as int)] + neighbour_row(
                        dv,
                        ev,
                        size as int,
                        start + 1,
                    ))));
                    assert(splice_at(dv, ev, size as int, start as int) == ev.take(start as int)
                        + lowered@ + ev.skip(start + size));
                    assert(before_tail + ev.skip(start + size) =~= splice_at(
                        dv,
                        ev,
                        size as int,
                        start as int,
                    ));
                    assert forall|i: int|
                        0 <= i < out.deep_view().len() implies is_neighbour(
                        dv,
                        ev,
                        #[trigger] out.deep_view()[i],
                    ) by {
                        if i < prev.len() {
                            assert(out.deep_view()[i] == prev[i]);
                        } else {
                            assert(out.deep_view()[i] == splice_at(
                                dv,
                                ev,
                                size as int,
                                start as int,
                            ));
                        }
                    }
                    assert forall|st: int|
                        window_applies(dv, ev, size as int, st) && st < start + 1 implies expr_in(
                        out.deep_view(),
                        #[trigger] splice_at(dv, ev, size as int, st),
                    ) by {
                        if st < start {
                            assert(expr_in(prev, splice_at(dv, ev, size as int, st)));
                            let w = choose|w: int|
                                0 <= w < prev.len() && prev[w] == splice_at(
                                    dv,
                                    ev,
                                    size as int,
                                    st,
                                );
                            assert(out.deep_view()[w] == splice_at(dv, ev, size as int, st));
                        } else {
                            assert(out.deep_view()[prev.len() as int] == splice_at(
                                dv,
                                ev,
                                size as int,
                                st,
                            ));
                        }
                    }
                    assert forall|sz: int, st: int|
                        window_applies(dv, ev, sz, st) && sz < size implies expr_in(
                        out.deep_view(),
                        #[trigger] splice_at(dv, ev, sz, st),
                    ) by {
                        assert(expr_in(prev, splice_at(dv, ev, sz, st)));
                        let w = choose|w: int|
                            0 <= w < prev.len() && prev[w] == splice_at(dv, ev, sz, st);
                        assert(out.deep_view()[w] == splice_at(dv, ev, sz, st));
                    }
                }
            } else {
                proof {
                    assert forall|st: int|
                        window_applies(dv, ev, size as int, st) && st < start + 1 implies expr_in(
                        out.deep_view(),
                        #[trigger] splice_at(dv, ev, size as int, st),
                    ) by {
                        if st == start {
                            assert(first_lowering(dv, ev.subrange(st, st + size)) is Some);
                            assert(ev.subrange(st, st + size) == window.deep_view());
                        }
                    }
                    assert(first_lowering(dv, ev.subrange(start as int, start + size)) is None)
                        by {
                        assert(ev.subrange(start as int, start + size) == window.deep_view());
                    }
                    assert(neighbour_row(dv, ev, size as int, start as int) == Seq::<
                        Seq<TokenView>,
                    >::empty() + neighbour_row(dv, ev, size as int, start + 1));
                    assert(Seq::<Seq<TokenView>>::empty() + neighbour_row(
                        dv,
                        ev,
                        size as int,
                        start + 1,
                    ) =~= neighbour_row(dv, ev, size as int, start + 1));
                }
            }
            start = start + 1;
        }
        proof {
            assert forall|sz: int, st: int|
                window_applies(dv, ev, sz, st) && sz < size + 1 implies expr_in(
                out.deep_view(),
                #[trigger] splice_at(dv, ev, sz, st),
            ) by {
                if sz == size {
                    assert(st <= ev.len() - sz);
                    assert(window_applies(dv, ev, size as int, st) && st < start);
                }
            }
            assert(neighbour_row(dv, ev, size as int, start as int) =~= Seq::<
                Seq<TokenView>,
            >::empty());
            assert((out.deep_view() + neighbour_row(dv, ev, size as int, start as int)) =~= out
                .deep_view());
        }
        w = w + 1;
    }
    proof {
        assert forall|sz: int, st: int|
            window_applies(dv, ev, sz, st) implies expr_in(
            out.deep_view(),
            #[trigger] splice_at(dv, ev, sz, st),
        ) by {
            assert(sz <= ev.len());
        }
        assert(neighbour_rows_from(dv, ev, w + 1) =~= Seq::<Seq<TokenView>>::empty());
        assert(out.deep_view() + neighbour_rows_from(dv, ev, w + 1) =~= out.deep_view());
    }
    out
}

/// No expression value occurs twice.
pub open spec fn no_dups(s: Seq<Seq<TokenView>>) -> bool {
    forall|i: int, j: int| 0 <= i < j < s.len() ==> s[i] != s[j]
}

/// The search state after `k` steps from a fresh search on `root`: the
/// visited list and the frontier, exactly as the search computes them —
/// each step pops the last frontier entry and, unless it was already
/// visited, records it and appends its neighbours.
pub open spec fn search_state(
    defs: Seq<DefinitionView>,
    root: Seq<TokenView>,
    k: nat,
) -> (Seq<Seq<TokenView>>, Seq<Seq<TokenView>>)
    decreases k,
{
    if k == 0 {
        (Seq::empty(), seq![root])
    } else {
        let prev = search_state(defs, root, (k - 1) as nat);
        let vis = prev.0;
        let q = prev.1;
        if q.len() == 0 {
            prev
        } else if expr_in(vis, q.last()) {
            (vis, q.drop_last())
        } else {
            (vis.push(q.last()), q.drop_last() + neighbours_list(defs, q.last()))
        }
    }
}

/// Once the frontier is empty the search state never changes again.
pub proof fn lemma_search_state_stationary(
    defs: Seq<DefinitionView>,
    root: Seq<TokenView>,
    k: nat,
    j: nat,
)
    requires
        k <= j,
        search_state(defs, root, k).1.len() == 0,
    ensures
        search_state(defs, root, j) == search_state(defs, root, k),
    decreases j,
{
    if j > k {
        lemma_search_state_stationary(defs, root, k, (j - 1) as nat);
    }
}

/// The rewrite-graph search: a frontier of expressions still to expand,
/// and the set of every distinct expression enqueued so far. The visited
/// set only grows; once the frontier is empty it holds exactly the
/// expressions reachable from the root.
pub struct Search {
    visited: Vec<Expression>,
    queue: Vec<Expression>,
    defs: Ghost<Seq<DefinitionView>>,
    root: Ghost<Seq<TokenView>>,
}

impl Search {
    /// The visited set, as expression values.
    pub closed spec fn visited_view(&self) -> Seq<Seq<TokenView>> {
        self.visited.deep_view()
    }

    /// The frontier, as expression values.
    pub closed spec fn queue_view(&self) -> Seq<Seq<TokenView>> {
        self.queue.deep_view()
    }

    /// The definitions the search rewrites with.
    pub closed spec fn defs_view(&self) -> Seq<DefinitionView> {
        self.defs@
    }

    /// The expression the search started from.
    pub closed spec fn root_view(&self) -> Seq<TokenView> {
        self.root@
    }

    /// The search invariant: visited expressions are distinct and
    /// reachable, frontier expressions are reachable, every neighbour of
    /// a visited expression is visited or on the frontier, and the root
    /// is never lost.
    pub open spec fn inv(&self) -> bool {
        &&& no_dups(self.visited_view())
        &&& forall|i: int|
            0 <= i < self.visited_view().len() ==> reachable(
                self.defs_view(),
                self.root_view(),
                #[trigger] self.visited_view()[i],
            )
        &&& forall|i: int|
            0 <= i < self.queue_view().len() ==> reachable(
                self.defs_view(),
                self.root_view(),
                #[trigger] self.queue_view()[i],
            )
        &&& forall|i: int, x: Seq<TokenView>|
            0 <= i < self.visited_view().len() && #[trigger] is_neighbour(
                self.defs_view(),
                self.visited_view()[i],
                x,
            ) ==> expr_in(self.visited_view(), x) || expr_in(self.queue_view(), x)
        &&& expr_in(self.visited_view(), self.root_view()) || expr_in(
            self.queue_view(),
            self.root_view(),
        )
    }

    /// A fresh search: nothing visited, the input alone on the frontier.
    pub fn new(defs: &Vec<Definition>, expression: Expression) -> (r: Search)
        ensures
            r.inv(),
            r.defs_view() == defs.deep_view(),
            r.root_view() == expression@,
            r.visited_view() == Seq::<Seq<TokenView>>::empty(),
            r.queue_view() == seq![expression@],
    {
        let ghost root = expression@;
        let mut queue: Vec<Expression> = Vec::new();
        queue.push(expression);
        let visited: Vec<Expression> = Vec::new();
        proof {
            assert(queue.deep_view() =~= seq![root]);
            assert(visited.deep_view() =~= Seq::<Seq<TokenView>>::empty());
            assert(queue.deep_view()[0] == root);
            lemma_reachable_refl(defs.deep_view(), root);
        }
        Search {
            visited,
            queue,
            defs: Ghost(defs.deep_view()),
            root: Ghost(root),
        }
    }

    /// The frontier is exhausted: every reachable expression is visited.
    pub fn done(&self) -> (r: bool)
        ensures
            r == (self.queue_view().len() == 0),
    {
        self.queue.len() == 0
    }

    /// The expressions visited so far, in discovery order.
    pub fn visited_list(&self) -> (r: &Vec<Expression>)
        ensures
            r.deep_view() == self.visited_view(),
    {
        &self.visited
    }

    /// One step of the search: pops a frontier expression; unless it was
    /// already visited, marks it visited and puts its lower neighbours on
    /// the frontier. The visited set before the step stays a prefix of
    /// the visited set after it. Hands back false when the frontier was
    /// already empty.
    pub fn step(&mut self, defs: &Vec<Definition>) -> (progress: bool)
        requires
            old(self).inv(),
            defs.deep_view() == old(self).defs_view(),
        ensures
            final(self).inv(),
            final(self).defs_view() == old(self).defs_view(),
            final(self).root_view() == old(self).root_view(),
            old(self).visited_view().is_prefix_of(final(self).visited_view()),
            progress == (old(self).queue_view().len() > 0),
            !progress ==> final(self).visited_view() == old(self).visited_view()
                && final(self).queue_view() == old(self).queue_view(),
            final(self).queue_view().len() == 0 ==> expr_in(
                final(self).visited_view(),
                final(self).root_view(),
            ),
            ({
                let vis0 = old(self).visited_view();
                let q0 = old(self).queue_view();
                if q0.len() == 0 {
                    final(self).visited_view() == vis0 && final(self).queue_view() == q0
                } else if expr_in(vis0, q0.last()) {
                    final(self).visited_view() == vis0 && final(self).queue_view()
                        == q0.drop_last()
                } else {
                    final(self).visited_view() == vis0.push(q0.last())
                        && final(self).queue_view() == q0.drop_last() + neighbours_list(
                        old(self).defs_view(),
                        q0.last(),
                    )
                }
            }),
    {
        let ghost dv = self.defs@;
        let ghost root = self.root@;
        let ghost vis0 = self.visited.deep_view();
        let ghost q0 = self.queue.deep_view();
        let e = match self.queue.pop() {
            None => {
                proof {
                    assert(vis0.is_prefix_of(vis0));
                }
                return false;
            },
            Some(e) => e,
        };
        proof {
            assert(self.queue.deep_view() =~= q0.drop_last());
            assert(e@ == q0.last());
        }
        let ghost q1 = self.queue.deep_view();
        if contains_expr(&self.visited, &e) {
            proof {
                assert(vis0.is_prefix_of(vis0));
                assert forall|i: int, x: Seq<TokenView>|
                    0 <= i < vis0.len() && #[trigger] is_neighbour(dv, vis0[i], x) implies expr_in(
                    vis0,
                    x,
                ) || expr_in(q1, x) by {
                    if !expr_in(vis0, x) {
                        assert(expr_in(q0, x));
                        let w = choose|w: int| 0 <= w < q0.len() && q0[w] == x;
                        if w < q0.len() - 1 {
                            assert(q1[w] == x);
                        } else {
                            assert(x == e@);
                        }
                    }
                }
                if !expr_in(vis0, root) {
                    let w = choose|w: int| 0 <= w < q0.len() && q0[w] == root;
                    if w < q0.len() - 1 {
                        assert(q1[w] == root);
                    } else {
                        assert(root == e@);
                    }
                }
            }
            return true;
        }
        self.visited.push(e.clone());
        let ghost vis1 = self.visited.deep_view();
        proof {
            assert(vis1 =~= vis0.push(e@));
        }
        let neighbours = get_lower_neighbours(defs, &e);
        let mut i: usize = 0;
        while i < neighbours.len()
            invariant
                i <= neighbours@.len(),
                self.defs@ == dv,
                self.root@ == root,
                self.visited.deep_view() == vis1,
                self.queue.deep_view() =~= q1 + neighbours.deep_view().take(i as int),
            decreases neighbours@.len() - i,
        {
            let ghost qs = self.queue.deep_view();
            self.queue.push(neighbours[i].clone());
            proof {
                assert(self.queue.deep_view() =~= qs.push(neighbours.deep_view()[i as int]));
                assert(neighbours.deep_view().take(i + 1) =~= neighbours.deep_view().take(
                    i as int,
                ).push(neighbours.deep_view()[i as int]));
            }
            i = i + 1;
        }
        proof {
            assert(neighbours.deep_view().take(neighbours@.len() as int) =~= neighbours
                .deep_view());
        }
        let ghost q2 = self.queue.deep_view();
        proof {
            let nv = neighbours.deep_view();
            assert(q2 == q1 + nv);
            assert(vis0.is_prefix_of(vis1)) by {
                assert(forall|i: int| 0 <= i < vis0.len() ==> vis1[i] == vis0[i]);
            }
            assert(no_dups(vis1)) by {
                assert(forall|i: int| 0 <= i < vis0.len() ==> vis1[i] == vis0[i]);
                assert(vis1.last() == e@);
            }
            assert forall|i: int|
                0 <= i < vis1.len() implies reachable(dv, root, #[trigger] vis1[i]) by {
                if i < vis0.len() {
                    assert(vis1[i] == vis0[i]);
                } else {
                    assert(vis1[i] == e@);
                    assert(q0[q0.len() - 1] == e@);
                }
            }
            assert(reachable(dv, root, e@)) by {
                assert(q0[q0.len() - 1] == e@);
            }
            assert forall|i: int|
                0 <= i < q2.len() implies reachable(dv, root, #[trigger] q2[i]) by {
                if i < q1.len() {
                    assert(q2[i] == q1[i]);
                    assert(q0[i] == q1[i]);
                } else {
                    assert(q2[i] == nv[i - q1.len()]);
                    assert(is_neighbour(dv, e@, nv[i - q1.len()]));
                    lemma_reachable_step(dv, root, e@, nv[i - q1.len()]);
                }
            }
            assert forall|i: int, x: Seq<TokenView>|
                0 <= i < vis1.len() && #[trigger] is_neighbour(dv, vis1[i], x) implies expr_in(
                vis1,
                x,
            ) || expr_in(q2, x) by {
                if i < vis0.len() {
                    assert(vis1[i] == vis0[i]);
                    if !expr_in(vis0, x) {
                        assert(expr_in(q0, x));
                        let w = choose|w: int| 0 <= w < q0.len() && q0[w] == x;
                        if w < q0.len() - 1 {
                            assert(q2[w] == x);
                            assert(expr_in(q2, x));
                        } else {
                            assert(x == e@);
                            assert(vis1.last() == e@);
                        }
                    } else {
                        let w = choose|w: int| 0 <= w < vis0.len() && vis0[w] == x;
                        assert(vis1[w] == x);
                    }
                } else {
                    assert(vis1[i] == e@);
                    let (size, start) = choose|size: int, start: int|
                        window_applies(dv, e@, size, start) && x == splice_at(dv, e@, size, start);
                    assert(expr_in(nv, x));
                    let w = choose|w: int| 0 <= w < nv.len() && nv[w] == x;
                    assert(q2[q1.len() + w] == x);
                    assert(expr_in(q2, x));
                }
            }
            if !expr_in(vis0, root) {
                let w = choose|w: int| 0 <= w < q0.len() && q0[w] == root;
                if w < q0.len() - 1 {
                    assert(q2[w] == root);
                } else {
                    assert(root == e@);
                    assert(vis1.last() == e@);
                }
            } else {
                let w = choose|w: int| 0 <= w < vis0.len() && vis0[w] == root;
                assert(vis1[w] == root);
            }
        }
        true
    }
}

/// The least expression of a non-empty vector under the expression order.
pub fn smallest_of(v: &Vec<Expression>) -> (r: Option<Expression>)
    ensures
        (r is Some) == (v.deep_view().len() > 0),
        match r {
            Some(m) => expr_in(v.deep_view(), m@) && forall|i: int|
                0 <= i < v.deep_view().len() ==> crate::token::expr_le(
                    m@,
                    #[trigger] v.deep_view()[i],
                ),
            None => v.deep_view().len() == 0,
        },
{
    if v.len() == 0 {
        return None;
    }
    let mut best: usize = 0;
    let mut i: usize = 1;
    while i < v.len()
        invariant
            0 <= best < i <= v@.len(),
            forall|j: int|
                0 <= j < i ==> crate::token::expr_le(
                    v.deep_view()[best as int],
                    #[trigger] v.deep_view()[j],
                ),
        decreases v@.len() - i,
    {
        if crate::token::expr_lt_exec(&v[i], &v[best]) {
            proof {
                let ghost bv = v.deep_view()[best as int];
                let ghost iv = v.deep_view()[i as int];
                assert forall|j: int|
                    0 <= j < i + 1 implies crate::token::expr_le(
                    iv,
                    #[trigger] v.deep_view()[j],
                ) by {
                    if j < i {
                        crate::token::lemma_expr_lt_trichotomy(iv, v.deep_view()[j]);
                        if v.deep_view()[j] != bv {
                            crate::token::lemma_expr_lt_trans(iv, bv, v.deep_view()[j]);
                        }
                    } else {
                        crate::token::lemma_expr_lt_trichotomy(iv, iv);
                    }
                }
            }
            best = i;
        } else {
            proof {
                crate::token::lemma_expr_lt_trichotomy(
                    v.deep_view()[i as int],
                    v.deep_view()[best as int],
                );
            }
        }
        i = i + 1;
    }
    let m = v[best].clone();
    proof {
        assert(m@ == v.deep_view()[best as int]);
        assert(expr_in(v.deep_view(), m@));
    }
    Some(m)
}

/// Two final visited sets of the same runtime and input hold the same
/// expressions: the search is deterministic in what it visits.
pub proof fn lemma_search_deterministic(
    defs: Seq<DefinitionView>,
    e0: Seq<TokenView>,
    v1: Seq<Seq<TokenView>>,
    v2: Seq<Seq<TokenView>>,
)
    requires
        forall|x: Seq<TokenView>| expr_in(v1, x) <==> reachable(defs, e0, x),
        forall|x: Seq<TokenView>| expr_in(v2, x) <==> reachable(defs, e0, x),
    ensures
        forall|x: Seq<TokenView>| expr_in(v1, x) <==> expr_in(v2, x),
{
}

} // verus!
