//! Balance repair: a forward pass over the tokens that finds close tags with
//! nothing to close and open tags that are never closed, then rewrites the
//! tokens so that the remaining open and close tags nest.
use vstd::prelude::*;
use crate::token::{view_tokens, HTMLToken, SToken};
use crate::parser::token_keys_unique;
use crate::tree::build_forest;

verus! {

/// The state of the repair pass after a prefix of the tokens: the positions of
/// the tags believed open (bottom first), the positions of open tags to treat
/// as self-closing, and the positions to delete.
pub struct RepairScan {
    pub stack: Seq<int>,
    pub reclass: Set<int>,
    pub invalid: Set<int>,
}

/// The name of an open tag token (empty for other tokens).
pub open spec fn open_name(t: SToken) -> Seq<char> {
    match t {
        SToken::Open(n, _) => n,
        _ => Seq::empty(),
    }
}

/// The highest depth `<= k` in `stack` whose open tag is named `name`, or -1.
pub open spec fn match_depth(toks: Seq<SToken>, stack: Seq<int>, name: Seq<char>, k: int) -> int
    decreases k + 1,
{
    if k < 0 || k >= stack.len() {
        -1
    } else if open_name(toks[stack[k]]) == name {
        k
    } else {
        match_depth(toks, stack, name, k - 1)
    }
}

/// Pops the entries above depth `d`, adding each to `reclass`.
pub open spec fn pop_above(stack: Seq<int>, reclass: Set<int>, d: int) -> (Seq<int>, Set<int>)
    decreases stack.len(),
{
    if stack.len() == 0 || stack.len() <= d + 1 {
        (stack, reclass)
    } else {
        pop_above(stack.drop_last(), reclass.insert(stack.last()), d)
    }
}

/// The repair pass at token `i`.
pub open spec fn repair_step(toks: Seq<SToken>, st: RepairScan, i: int) -> RepairScan {
    match toks[i] {
        SToken::Open(n, _) => if n.len() == 0 {
            RepairScan { stack: st.stack, reclass: st.reclass, invalid: st.invalid.insert(i) }
        } else {
            RepairScan { stack: st.stack.push(i), reclass: st.reclass, invalid: st.invalid }
        },
        SToken::Close(n) => {
            let d = match_depth(toks, st.stack, n, st.stack.len() - 1);
            if d < 0 {
                RepairScan { stack: st.stack, reclass: st.reclass, invalid: st.invalid.insert(i) }
            } else {
                let (rest, reclass) = pop_above(st.stack, st.reclass, d);
                RepairScan { stack: rest.drop_last(), reclass, invalid: st.invalid }
            }
        },
        _ => st,
    }
}

/// The repair pass after the first `n` tokens.
pub open spec fn repair_scan(toks: Seq<SToken>, n: int) -> RepairScan
    decreases n,
{
    if n <= 0 {
        RepairScan { stack: Seq::empty(), reclass: Set::empty(), invalid: Set::empty() }
    } else {
        repair_step(toks, repair_scan(toks, n - 1), n - 1)
    }
}

/// `t`, made self-closing when `r` holds and it is an open tag.
pub open spec fn fix_token(t: SToken, r: bool) -> SToken {
    if r {
        match t {
            SToken::Open(n, a) => SToken::SelfClose(n, a),
            _ => t,
        }
    } else {
        t
    }
}

/// The first `n` tokens with the marks of `st` applied.
pub open spec fn apply_marks(toks: Seq<SToken>, st: RepairScan, n: int) -> Seq<SToken>
    decreases n,
{
    if n <= 0 {
        Seq::empty()
    } else {
        let prev = apply_marks(toks, st, n - 1);
        if st.invalid.contains(n - 1) {
            prev
        } else {
            prev.push(fix_token(toks[n - 1], st.reclass.contains(n - 1)))
        }
    }
}

/// The repaired tokens.
pub open spec fn repair(toks: Seq<SToken>) -> Seq<SToken> {
    apply_marks(toks, repair_scan(toks, toks.len() as int), toks.len() as int)
}

/// Whether `t` is an open tag named `name`.
fn is_open_named(t: &HTMLToken, name: &String) -> (r: bool)
    ensures
        r == (t@ is Open && open_name(t@) == name@),
{
    match t {
        HTMLToken::OpenTag(m) => m.name == *name,
        _ => false,
    }
}

/// A vector of `n` copies of `false`.
fn all_false(n: usize) -> (r: Vec<bool>)
    ensures
        r.len() == n,
        forall|j: int| 0 <= j < n ==> !r@[j],
{
    let mut v: Vec<bool> = Vec::new();
    while v.len() < n
        invariant
            v.len() <= n,
            forall|j: int| 0 <= j < v.len() ==> !v@[j],
        decreases n - v.len(),
    {
        v.push(false);
    }
    v
}

pub open spec fn stack_view(s: Seq<usize>) -> Seq<int> {
    s.map_values(|x: usize| x as int)
}

/// Repairs the tokens: unmatched close tags and nameless open tags are
/// deleted, and open tags left open by a close of an enclosing tag become
/// self-closing.
#[verifier::loop_isolation(false)]
pub fn repair_tokens(tokens: &Vec<HTMLToken>) -> (r: Vec<HTMLToken>)
    ensures
        view_tokens(r@) == repair(view_tokens(tokens@)),
{
    let ghost toks = view_tokens(tokens@);
    let n = tokens.len();
    let mut stack: Vec<usize> = Vec::new();
    let mut reclass = all_false(n);
    let mut invalid = all_false(n);
    let mut i: usize = 0;
    assert(stack_view(stack@) =~= Seq::<int>::empty());
    while i < n
        invariant
            n == tokens.len(),
            toks == view_tokens(tokens@),
            0 <= i <= n,
            reclass.len() == n,
            invalid.len() == n,
            stack_view(stack@) == repair_scan(toks, i as int).stack,
            forall|k: int| 0 <= k < stack.len() ==> stack@[k] < i,
            forall|k: int| 0 <= k < stack.len() ==> (#[trigger] toks[stack@[k] as int]) is Open,
            forall|j: int|
                0 <= j < n ==> (reclass@[j] == repair_scan(toks, i as int).reclass.contains(j)),
            forall|j: int|
                0 <= j < n ==> (invalid@[j] == repair_scan(toks, i as int).invalid.contains(j)),
        decreases n - i,
    {
        let ghost st = repair_scan(toks, i as int);
        let ghost stack0 = stack@;
        assert(toks[i as int] == tokens@[i as int]@);
        match &tokens[i] {
            HTMLToken::OpenTag(m) => {
                if m.name.as_str().is_empty() {
                    invalid.set(i, true);
                } else {
                    stack.push(i);
                    assert(toks[stack@[stack.len() - 1] as int] is Open);
                    assert(stack_view(stack@) =~= st.stack.push(i as int));
                }
            },
            HTMLToken::CloseTag(name) => {
                let ghost top = st.stack.len() - 1;
                let mut k = stack.len();
                while k > 0 && !is_open_named(&tokens[stack[k - 1]], name)
                    invariant
                        k <= stack.len(),
                        stack_view(stack@) == st.stack,
                        forall|q: int| 0 <= q < stack.len() ==> (#[trigger] toks[stack@[q] as int]) is Open,
                        forall|q: int| 0 <= q < stack.len() ==> stack@[q] < i,
                        n == tokens.len(),
                        toks == view_tokens(tokens@),
                        i < n,
                        match_depth(toks, st.stack, name@, k - 1) == match_depth(
                            toks,
                            st.stack,
                            name@,
                            top,
                        ),
                    decreases k,
                {
                    let ghost idx = stack@[k - 1];
                    assert(toks[idx as int] == tokens@[idx as int]@);
                    assert(st.stack[k - 1] == idx as int);
                    k -= 1;
                }
                let found = k > 0;
                if found {
                    let ghost idx = stack@[k - 1];
                    assert(toks[idx as int] == tokens@[idx as int]@);
                    assert(st.stack[k - 1] == idx as int);
                    assert(match_depth(toks, st.stack, name@, k - 1) == k - 1);
                }
                if !found {
                    invalid.set(i, true);
                } else {
                    let d = k - 1;
                    let ghost mut rs = st.reclass;
                    while stack.len() > d + 1
                        invariant
                            d + 1 <= stack.len() <= stack0.len(),
                            stack@ == stack0.subrange(0, stack.len() as int),
                            forall|q: int| 0 <= q < stack.len() ==> stack@[q] < i,
                            reclass.len() == n,
                            i < n,
                            forall|j: int| 0 <= j < n ==> (reclass@[j] == rs.contains(j)),
                            pop_above(stack_view(stack@), rs, d as int) == pop_above(
                                st.stack,
                                st.reclass,
                                d as int,
                            ),
                        decreases stack.len(),
                    {
                        let ghost before = stack@;
                        let x = stack.pop().unwrap();
                        reclass.set(x, true);
                        proof {
                            assert(stack_view(before).drop_last() =~= stack_view(stack@));
                            rs = rs.insert(x as int);
                        }
                    }
                    let ghost before = stack@;
                    stack.pop();
                    assert(stack_view(before).drop_last() =~= stack_view(stack@));
                    assert forall|q: int| 0 <= q < stack.len() implies (#[trigger] toks[stack@[q] as int]) is Open by {
                        assert(stack@[q] == stack0[q]);
                    }
                }
            },
            _ => {},
        }
        i += 1;
    }
    let ghost fin = repair_scan(toks, n as int);
    let mut out: Vec<HTMLToken> = Vec::new();
    let mut i: usize = 0;
    assert(view_tokens(out@) =~= Seq::<SToken>::empty());
    while i < n
        invariant
            n == tokens.len(),
            toks == view_tokens(tokens@),
            0 <= i <= n,
            reclass.len() == n,
            invalid.len() == n,
            forall|j: int| 0 <= j < n ==> (reclass@[j] == fin.reclass.contains(j)),
            forall|j: int| 0 <= j < n ==> (invalid@[j] == fin.invalid.contains(j)),
            view_tokens(out@) == apply_marks(toks, fin, i as int),
        decreases n - i,
    {
        let ghost before = out@;
        assert(toks[i as int] == tokens@[i as int]@);
        if !invalid[i] {
            let t = if reclass[i] {
                match &tokens[i] {
                    HTMLToken::OpenTag(m) => HTMLToken::SelfClose(m.duplicate()),
                    other => other.duplicate(),
                }
            } else {
                tokens[i].duplicate()
            };
            out.push(t);
            assert(view_tokens(out@) =~= view_tokens(before).push(t@));
        }
        i += 1;
    }
    out
}

/// The names of the tags left open after the first `n` tokens when every
/// close tag closes the innermost open tag; none when some token breaks that
/// nesting (a close tag that closes nothing or another tag, a nameless open tag).
pub open spec fn nesting(toks: Seq<SToken>, n: int) -> Option<Seq<Seq<char>>>
    decreases n,
{
    if n <= 0 {
        Some(Seq::empty())
    } else {
        match nesting(toks, n - 1) {
            None => None,
            Some(open) => match toks[n - 1] {
                SToken::Open(name, _) => if name.len() == 0 {
                    None
                } else {
                    Some(open.push(name))
                },
                SToken::Close(name) => if open.len() > 0 && open.last() == name {
                    Some(open.drop_last())
                } else {
                    None
                },
                _ => Some(open),
            },
        }
    }
}

/// Every open tag is closed, in order, by exactly one close tag of its name.
pub open spec fn well_nested(toks: Seq<SToken>) -> bool {
    nesting(toks, toks.len() as int) == Some(Seq::<Seq<char>>::empty())
}

pub open spec fn stack_names(toks: Seq<SToken>, stack: Seq<int>) -> Seq<Seq<char>> {
    stack.map_values(|i: int| open_name(toks[i]))
}

proof fn lemma_nesting_prefix(toks: Seq<SToken>, n: int, m: int)
    requires
        0 <= n <= m,
        nesting(toks, m) is Some,
    ensures
        nesting(toks, n) is Some,
    decreases m - n,
{
    if n < m {
        lemma_nesting_prefix(toks, n, m - 1);
    }
}

proof fn lemma_scan_while_nested(toks: Seq<SToken>, n: int)
    requires
        0 <= n <= toks.len(),
        nesting(toks, n) is Some,
    ensures
        repair_scan(toks, n).reclass == Set::<int>::empty(),
        repair_scan(toks, n).invalid == Set::<int>::empty(),
        stack_names(toks, repair_scan(toks, n).stack) == nesting(toks, n)->Some_0,
    decreases n,
{
    if n > 0 {
        lemma_nesting_prefix(toks, n - 1, n);
        lemma_scan_while_nested(toks, n - 1);
        let st = repair_scan(toks, n - 1);
        let open = nesting(toks, n - 1)->Some_0;
        match toks[n - 1] {
            SToken::Open(name, _) => {
                assert(stack_names(toks, st.stack.push(n - 1)) =~= open.push(name));
            },
            SToken::Close(name) => {
                let top = st.stack.len() - 1;
                assert(stack_names(toks, st.stack)[top] == name);
                assert(match_depth(toks, st.stack, name, top) == top);
                assert(st.stack.subrange(top + 1, st.stack.len() as int).to_set() =~= Set::<int>::empty());
                assert(stack_names(toks, st.stack.drop_last()) =~= open.drop_last());
            },
            _ => {},
        }
    }
}

proof fn lemma_apply_no_marks(toks: Seq<SToken>, st: RepairScan, n: int)
    requires
        0 <= n <= toks.len(),
        st.reclass == Set::<int>::empty(),
        st.invalid == Set::<int>::empty(),
    ensures
        apply_marks(toks, st, n) == toks.subrange(0, n),
    decreases n,
{
    if n > 0 {
        lemma_apply_no_marks(toks, st, n - 1);
        assert(toks.subrange(0, n - 1).push(toks[n - 1]) =~= toks.subrange(0, n));
    }
}

/// Repair leaves well-nested tokens as they are, so the forest built from
/// them is the one built without repair.
pub proof fn lemma_repair_keeps_well_nested(toks: Seq<SToken>)
    requires
        well_nested(toks),
    ensures
        repair(toks) == toks,
        build_forest(repair(toks)) == build_forest(toks),
{
    lemma_scan_while_nested(toks, toks.len() as int);
    lemma_apply_no_marks(toks, repair_scan(toks, toks.len() as int), toks.len() as int);
    assert(toks.subrange(0, toks.len() as int) =~= toks);
}

/// Facts that hold of the repair pass after the first `n` tokens: the stack
/// holds increasing positions before `n`, none of them marked, and every mark
/// is a position before `n`.
pub open spec fn scan_inv(st: RepairScan, n: int) -> bool {
    &&& forall|a: int, b: int| 0 <= a < b < st.stack.len() ==> st.stack[a] < st.stack[b]
    &&& forall|a: int|
        0 <= a < st.stack.len() ==> 0 <= #[trigger] st.stack[a] < n && !st.reclass.contains(
            st.stack[a],
        ) && !st.invalid.contains(st.stack[a])
    &&& forall|x: int| st.reclass.contains(x) ==> x < n
    &&& forall|x: int| st.invalid.contains(x) ==> x < n
}

proof fn lemma_match_depth_range(toks: Seq<SToken>, stack: Seq<int>, name: Seq<char>, k: int)
    requires
        -1 <= k < stack.len(),
    ensures
        -1 <= match_depth(toks, stack, name, k) <= k,
        match_depth(toks, stack, name, k) >= 0 ==> open_name(
            toks[stack[match_depth(toks, stack, name, k)]],
        ) == name,
    decreases k + 1,
{
    if k >= 0 && open_name(toks[stack[k]]) != name {
        lemma_match_depth_range(toks, stack, name, k - 1);
    }
}

/// Popping above depth `d` leaves the entries up to `d` and marks exactly the
/// entries above it.
pub proof fn lemma_pop_above(stack: Seq<int>, reclass: Set<int>, d: int)
    requires
        -1 <= d < stack.len(),
    ensures
        pop_above(stack, reclass, d) == (
            stack.subrange(0, d + 1),
            reclass.union(stack.subrange(d + 1, stack.len() as int).to_set()),
        ),
    decreases stack.len(),
{
    if stack.len() <= d + 1 {
        assert(stack.subrange(0, d + 1) =~= stack);
        assert(reclass.union(stack.subrange(d + 1, stack.len() as int).to_set()) =~= reclass);
    } else {
        let rest = stack.drop_last();
        lemma_pop_above(rest, reclass.insert(stack.last()), d);
        assert(rest.subrange(0, d + 1) =~= stack.subrange(0, d + 1));
        let above = stack.subrange(d + 1, stack.len() as int);
        let above_rest = rest.subrange(d + 1, rest.len() as int);
        assert forall|x: int| above.contains(x) <==> (above_rest.contains(x) || x == stack.last()) by {
            if above.contains(x) && x != stack.last() {
                let w = choose|w: int| 0 <= w < above.len() && above[w] == x;
                assert(above_rest[w] == x);
            }
            if above_rest.contains(x) {
                let w = choose|w: int| 0 <= w < above_rest.len() && above_rest[w] == x;
                assert(above[w] == x);
            }
            if x == stack.last() {
                assert(above[above.len() - 1] == x);
            }
        }
        assert(reclass.insert(stack.last()).union(above_rest.to_set()) =~= reclass.union(above.to_set()));
    }
}

proof fn lemma_scan_inv(toks: Seq<SToken>, n: int)
    requires
        0 <= n <= toks.len(),
    ensures
        scan_inv(repair_scan(toks, n), n),
    decreases n,
{
    if n > 0 {
        lemma_scan_inv(toks, n - 1);
        let st = repair_scan(toks, n - 1);
        match toks[n - 1] {
            SToken::Close(name) => {
                let top = st.stack.len() - 1;
                lemma_match_depth_range(toks, st.stack, name, top);
                let d = match_depth(toks, st.stack, name, top);
                if d >= 0 {
                    lemma_pop_above(st.stack, st.reclass, d);
                    let nst = repair_scan(toks, n);
                    let above = st.stack.subrange(d + 1, st.stack.len() as int);
                    assert(nst.stack =~= st.stack.subrange(0, d));
                    assert forall|a: int| 0 <= a < nst.stack.len() implies !above.contains(
                        #[trigger] nst.stack[a],
                    ) by {
                        if above.contains(nst.stack[a]) {
                            let w = choose|w: int| 0 <= w < above.len() && above[w] == nst.stack[a];
                            assert(st.stack[a] < st.stack[d + 1 + w]);
                        }
                    }
                    assert forall|x: int| above.contains(x) implies x < n by {
                        let w = choose|w: int| 0 <= w < above.len() && above[w] == x;
                        assert(st.stack[d + 1 + w] < n - 1);
                    }
                }
            },
            _ => {},
        }
    }
}

proof fn lemma_position_stays_unmarked(toks: Seq<SToken>, n: int, m: int, j: int)
    requires
        0 <= m < n < j <= toks.len(),
        !repair_scan(toks, n + 1).stack.contains(m),
        !repair_scan(toks, n + 1).reclass.contains(m),
        !repair_scan(toks, n + 1).invalid.contains(m),
        !repair_scan(toks, n + 1).invalid.contains(n),
    ensures
        !repair_scan(toks, j).stack.contains(m),
        !repair_scan(toks, j).reclass.contains(m),
        !repair_scan(toks, j).invalid.contains(m),
        !repair_scan(toks, j).invalid.contains(n),
    decreases j,
{
    if j > n + 1 {
        lemma_position_stays_unmarked(toks, n, m, j - 1);
        let st = repair_scan(toks, j - 1);
        match toks[j - 1] {
            SToken::Open(name, _) => {
                if name.len() > 0 {
                    let pushed = st.stack.push(j - 1);
                    assert(!pushed.contains(m)) by {
                        if pushed.contains(m) {
                            let w = choose|w: int| 0 <= w < pushed.len() && pushed[w] == m;
                            if w < st.stack.len() {
                                assert(st.stack[w] == m);
                            }
                        }
                    }
                }
            },
            SToken::Close(name) => {
                let top = st.stack.len() - 1;
                lemma_match_depth_range(toks, st.stack, name, top);
                let d = match_depth(toks, st.stack, name, top);
                if d >= 0 {
                    lemma_pop_above(st.stack, st.reclass, d);
                    let above = st.stack.subrange(d + 1, st.stack.len() as int);
                    let below = st.stack.subrange(0, d);
                    assert(!above.contains(m)) by {
                        if above.contains(m) {
                            let w = choose|w: int| 0 <= w < above.len() && above[w] == m;
                            assert(st.stack[d + 1 + w] == m);
                        }
                    }
                    assert(!below.contains(m)) by {
                        if below.contains(m) {
                            let w = choose|w: int| 0 <= w < below.len() && below[w] == m;
                            assert(st.stack[w] == m);
                        }
                    }
                    assert(st.stack.subrange(0, d + 1).drop_last() =~= below);
                }
            },
            _ => {},
        }
    }
}

/// A close tag whose name is open on the stack closes the nearest such tag:
/// only the entries above it are made self-closing, and neither the close tag
/// nor the open tag it matches is ever deleted, nor that open tag made
/// self-closing.
pub proof fn lemma_matched_pair_kept(toks: Seq<SToken>, n: int)
    requires
        0 <= n < toks.len(),
        toks[n] is Close,
        match_depth(
            toks,
            repair_scan(toks, n).stack,
            toks[n]->Close_0,
            repair_scan(toks, n).stack.len() - 1,
        ) >= 0,
    ensures
        ({
            let st = repair_scan(toks, n);
            let d = match_depth(toks, st.stack, toks[n]->Close_0, st.stack.len() - 1);
            let m = st.stack[d];
            let fin = repair_scan(toks, toks.len() as int);
            &&& 0 <= d < st.stack.len()
            &&& 0 <= m < n
            &&& toks[m] is Open
            &&& open_name(toks[m]) == toks[n]->Close_0
            &&& repair_scan(toks, n + 1).stack == st.stack.subrange(0, d)
            &&& repair_scan(toks, n + 1).reclass == st.reclass.union(
                st.stack.subrange(d + 1, st.stack.len() as int).to_set(),
            )
            &&& repair_scan(toks, n + 1).invalid == st.invalid
            &&& !fin.invalid.contains(n)
            &&& !fin.invalid.contains(m)
            &&& !fin.reclass.contains(m)
        }),
{
    let st = repair_scan(toks, n);
    let name = toks[n]->Close_0;
    let top = st.stack.len() - 1;
    lemma_scan_inv(toks, n);
    lemma_match_depth_range(toks, st.stack, name, top);
    let d = match_depth(toks, st.stack, name, top);
    let m = st.stack[d];
    lemma_pop_above(st.stack, st.reclass, d);
    assert(st.stack.subrange(0, d + 1).drop_last() =~= st.stack.subrange(0, d));
    let above = st.stack.subrange(d + 1, st.stack.len() as int);
    let below = st.stack.subrange(0, d);
    assert(!above.contains(m)) by {
        if above.contains(m) {
            let w = choose|w: int| 0 <= w < above.len() && above[w] == m;
            assert(st.stack[d] < st.stack[d + 1 + w]);
        }
    }
    assert(!below.contains(m)) by {
        if below.contains(m) {
            let w = choose|w: int| 0 <= w < below.len() && below[w] == m;
            assert(st.stack[w] < st.stack[d]);
        }
    }
    assert(toks[m] is Open) by {
        assert(open_name(toks[m]) == name);
        lemma_stack_holds_open(toks, n);
    }
    if n + 1 < toks.len() {
        lemma_position_stays_unmarked(toks, n, m, toks.len() as int);
    }
}

proof fn lemma_stack_holds_open(toks: Seq<SToken>, n: int)
    requires
        0 <= n <= toks.len(),
    ensures
        forall|a: int|
            0 <= a < repair_scan(toks, n).stack.len() ==> (#[trigger] toks[repair_scan(toks, n).stack[a]]) is Open,
    decreases n,
{
    if n > 0 {
        lemma_stack_holds_open(toks, n - 1);
        let st = repair_scan(toks, n - 1);
        match toks[n - 1] {
            SToken::Close(name) => {
                let top = st.stack.len() - 1;
                lemma_match_depth_range(toks, st.stack, name, top);
                let d = match_depth(toks, st.stack, name, top);
                if d >= 0 {
                    lemma_pop_above(st.stack, st.reclass, d);
                    assert(st.stack.subrange(0, d + 1).drop_last() =~= st.stack.subrange(0, d));
                    let nst = repair_scan(toks, n);
                    assert forall|a: int| 0 <= a < nst.stack.len() implies (#[trigger] toks[nst.stack[a]]) is Open by {
                        assert(nst.stack[a] == st.stack[a]);
                    }
                }
            },
            _ => {},
        }
    }
}

proof fn lemma_apply_marks_keeps(toks: Seq<SToken>, st: RepairScan, n: int)
    requires
        0 <= n <= toks.len(),
        forall|i: int| 0 <= i < toks.len() ==> token_keys_unique(#[trigger] toks[i]),
    ensures
        forall|i: int|
            0 <= i < apply_marks(toks, st, n).len() ==> token_keys_unique(
                #[trigger] apply_marks(toks, st, n)[i],
            ),
    decreases n,
{
    if n > 0 {
        lemma_apply_marks_keeps(toks, st, n - 1);
        let prev = apply_marks(toks, st, n - 1);
        let cur = apply_marks(toks, st, n);
        assert(token_keys_unique(toks[n - 1]));
        assert forall|i: int| 0 <= i < cur.len() implies token_keys_unique(#[trigger] cur[i]) by {
            if i < prev.len() {
                assert(cur[i] == prev[i]);
            }
        }
    }
}

/// Repair keeps each tag's attributes, so unique names stay unique.
pub proof fn lemma_repair_keeps_keys_unique(toks: Seq<SToken>)
    requires
        forall|i: int| 0 <= i < toks.len() ==> token_keys_unique(#[trigger] toks[i]),
    ensures
        forall|i: int| 0 <= i < repair(toks).len() ==> token_keys_unique(#[trigger] repair(toks)[i]),
{
    lemma_apply_marks_keeps(toks, repair_scan(toks, toks.len() as int), toks.len() as int);
}

} // verus!
