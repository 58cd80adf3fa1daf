//! Cycle detection over the binding reference graph: bindings quoting
//! bindings form a directed graph, distinct from the namespace tree, and
//! each cycle in it is reported as a diagnostic.

use vstd::prelude::*;
use vstd::pervasive::VecAdditionalExecFns;
use vstd::string::StrSliceExecFns;
use crate::ast::{Binding, ErrorCode, Offsets, Problem};
use crate::namespace::str_eq;

verus! {

/// The sequence `p` occurs in `t` at position `i`.
pub open spec fn occurs_at(t: Seq<char>, p: Seq<char>, i: int) -> bool {
    0 <= i && i + p.len() <= t.len() && t.subrange(i, i + p.len()) == p
}

/// Number of set entries of a boolean sequence.
pub open spec fn count_true(s: Seq<bool>) -> nat
    decreases s.len(),
{
    if s.len() == 0 {
        0
    } else {
        count_true(s.drop_last()) + (if s.last() {
            1nat
        } else {
            0nat
        })
    }
}

proof fn lemma_count_true_bound(s: Seq<bool>)
    ensures
        count_true(s) <= s.len(),
    decreases s.len(),
{
    if s.len() > 0 {
        lemma_count_true_bound(s.drop_last());
    }
}

proof fn lemma_count_true_update(s: Seq<bool>, i: int)
    requires
        0 <= i < s.len(),
        !s[i],
    ensures
        count_true(s.update(i, true)) == count_true(s) + 1,
    decreases s.len(),
{
    if i == s.len() - 1 {
        assert(s.update(i, true).drop_last() =~= s.drop_last());
    } else {
        assert(s.update(i, true).drop_last() =~= s.drop_last().update(i, true));
        lemma_count_true_update(s.drop_last(), i);
    }
}

/// Finds the first occurrence of a quote token (a quote mark directly
/// followed by `name`) in `text`.
pub fn find_quote(text: &str, name: &str) -> (r: Option<usize>)
    ensures
        match r {
            Some(i) => occurs_at(text@, seq!['\''] + name@, i as int) && forall|j: int|
                0 <= j < i ==> !occurs_at(text@, seq!['\''] + name@, j),
            None => forall|j: int| !occurs_at(text@, seq!['\''] + name@, j),
        },
{
    let tlen = text.unicode_len();
    let nlen = name.unicode_len();
    let ghost pat = seq!['\''] + name@;
    if nlen >= tlen {
        proof {
            assert(forall|j: int| !occurs_at(text@, pat, j));
        }
        return None;
    }
    let mut i: usize = 0;
    while i < tlen - nlen
        invariant
            tlen == text@.len(),
            nlen == name@.len(),
            pat == seq!['\''] + name@,
            nlen + 1 <= tlen,
            0 <= i <= tlen - nlen,
            forall|j: int| 0 <= j < i ==> !occurs_at(text@, pat, j),
        decreases tlen - i,
    {
        let mut matched = text.get_char(i) == '\'';
        proof {
            if !matched {
                assert(!occurs_at(text@, pat, i as int)) by {
                    if occurs_at(text@, pat, i as int) {
                        assert(text@.subrange(i as int, i + pat.len())[0] == text@[i as int]);
                        assert(pat[0] == '\'');
                    }
                }
            }
        }
        if matched {
            let mut k: usize = 0;
            while k < nlen && matched
                invariant
                    tlen == text@.len(),
                    nlen == name@.len(),
                    pat == seq!['\''] + name@,
                    i + nlen + 1 <= tlen,
                    0 <= k <= nlen,
                    text@[i as int] == '\'',
                    matched ==> forall|m: int| 0 <= m < k ==> #[trigger] text@[i + 1 + m] == name@[m],
                    !matched ==> !occurs_at(text@, pat, i as int),
                decreases (if matched {
                    1int
                } else {
                    0int
                }), nlen - k,
            {
                if text.get_char(i + 1 + k) != name.get_char(k) {
                    matched = false;
                    proof {
                        assert(!occurs_at(text@, pat, i as int)) by {
                            if occurs_at(text@, pat, i as int) {
                                assert(text@.subrange(i as int, i + pat.len())[k + 1] == text@[i
                                    + 1 + k]);
                                assert(pat[k + 1] == name@[k as int]);
                            }
                        }
                    }
                } else {
                    k += 1;
                }
            }
            if matched {
                proof {
                    assert(occurs_at(text@, pat, i as int)) by {
                        assert forall|m: int|
                            0 <= m < pat.len() implies text@.subrange(
                            i as int,
                            i + pat.len(),
                        )[m] == pat[m] by {
                            assert(text@.subrange(i as int, i + pat.len())[m] == text@[i + m]);
                            if m > 0 {
                                let mm = m - 1;
                                assert(pat[m] == name@[mm]);
                                assert(name@[mm] == name@[mm]);
                                assert(text@[i + 1 + mm] == name@[mm]);
                                assert(i + m == i + 1 + mm);
                            }
                        }
                        assert(text@.subrange(i as int, i + pat.len()) =~= pat);
                    }
                }
                return Some(i);
            }
        }
        i += 1;
    }
    proof {
        assert forall|j: int| !occurs_at(text@, pat, j) by {
            if occurs_at(text@, pat, j) {
                assert(0 <= j && j + pat.len() <= text@.len());
                assert(j < i);
            }
        }
    }
    None
}


/// Index of the first binding carrying a name, or the binding count when
/// none does; quoted dependencies resolve to their first match.
pub open spec fn name_index(bindings: Seq<Binding>, name: Seq<char>) -> int
    decreases bindings.len(),
{
    if bindings.len() == 0 {
        0
    } else if bindings[0].name@ == name {
        0
    } else {
        1 + name_index(bindings.drop_first(), name)
    }
}

proof fn lemma_name_index(bindings: Seq<Binding>, name: Seq<char>)
    ensures
        0 <= name_index(bindings, name) <= bindings.len(),
        name_index(bindings, name) < bindings.len() ==> bindings[name_index(
            bindings,
            name,
        )].name@ == name,
        forall|j: int|
            0 <= j < name_index(bindings, name) ==> (#[trigger] bindings[j]).name@ != name,
    decreases bindings.len(),
{
    if bindings.len() > 0 && bindings[0].name@ != name {
        lemma_name_index(bindings.drop_first(), name);
        assert forall|j: int|
            0 <= j < name_index(bindings, name) implies (#[trigger] bindings[j]).name@
            != name by {
            if j > 0 {
                assert(bindings.drop_first()[j - 1] == bindings[j]);
            }
        }
        if name_index(bindings.drop_first(), name) < bindings.drop_first().len() {
            assert(bindings[name_index(bindings, name)] == bindings.drop_first()[name_index(
                bindings.drop_first(),
                name,
            )]);
        }
    }
}

/// A quoting edge of the reference graph: binding `i` names a dependency
/// that resolves to binding `j`.
pub open spec fn quote_edge(bindings: Seq<Binding>, i: int, j: int) -> bool {
    &&& 0 <= i < bindings.len()
    &&& 0 <= j < bindings.len()
    &&& exists|d: int|
        0 <= d < bindings[i].dependencies@.len() && name_index(
            bindings,
            (#[trigger] bindings[i].dependencies@[d])@,
        ) == j
}

/// A closed walk in the quote graph: at least one step, ending where it
/// began.
pub open spec fn is_quote_cycle(bindings: Seq<Binding>, p: Seq<int>) -> bool {
    &&& p.len() >= 2
    &&& p[0] == p[p.len() - 1]
    &&& forall|k: int| 0 <= k < p.len() - 1 ==> #[trigger] quote_edge(bindings, p[k], p[k + 1])
}

/// The binding reference graph has a cycle.
pub open spec fn has_quote_cycle(bindings: Seq<Binding>) -> bool {
    exists|p: Seq<int>| is_quote_cycle(bindings, p)
}

/// A cycle report stands at the span of a quote token of the quoting
/// binding, or at that binding's whole content span when the token cannot
/// be located within bounds.
pub open spec fn cycle_problem_position(bindings: Seq<Binding>, p: Problem) -> bool {
    exists|i: int, d: int|
        #![trigger bindings[i].dependencies@[d]]
        0 <= i < bindings.len() && 0 <= d < bindings[i].dependencies@.len() && (p.position
            == bindings[i].content_position || {
            let name = bindings[i].dependencies@[d]@;
            &&& p.position.start >= bindings[i].content_position.start
            &&& occurs_at(
                bindings[i].content@,
                seq!['\''] + name,
                p.position.start - bindings[i].content_position.start,
            )
            &&& p.position.end == p.position.start + 1 + name.len()
        })
}

/// Membership after appending to an integer sequence.
proof fn lemma_contains_push(s: Seq<int>, x: int, v: int)
    ensures
        s.push(x).contains(v) <==> (s.contains(v) || v == x),
{
    if s.push(x).contains(v) {
        let k = choose|k: int| 0 <= k < s.push(x).len() && s.push(x)[k] == v;
        if k < s.len() {
            assert(s[k] == v);
        }
    }
    if s.contains(v) {
        let k = choose|k: int| 0 <= k < s.len() && s[k] == v;
        assert(s.push(x)[k] == v);
    }
    if v == x {
        assert(s.push(x)[s.len() as int] == v);
    }
}

/// First position of a value in an integer sequence, or its length.
spec fn seq_first_index(s: Seq<int>, v: int) -> int
    decreases s.len(),
{
    if s.len() == 0 {
        0
    } else if s[0] == v {
        0
    } else {
        1 + seq_first_index(s.drop_first(), v)
    }
}

proof fn lemma_seq_first_index(s: Seq<int>, v: int)
    ensures
        0 <= seq_first_index(s, v) <= s.len(),
        s.contains(v) <==> seq_first_index(s, v) < s.len(),
        seq_first_index(s, v) < s.len() ==> s[seq_first_index(s, v)] == v,
        forall|j: int| 0 <= j < seq_first_index(s, v) ==> s[j] != v,
    decreases s.len(),
{
    if s.len() > 0 && s[0] != v {
        lemma_seq_first_index(s.drop_first(), v);
        assert(s.contains(v) <==> s.drop_first().contains(v)) by {
            if s.contains(v) {
                let k = choose|k: int| 0 <= k < s.len() && s[k] == v;
                assert(s.drop_first()[k - 1] == v);
            }
            if s.drop_first().contains(v) {
                let k = choose|k: int| 0 <= k < s.drop_first().len() && s.drop_first()[k] == v;
                assert(s[k + 1] == v);
            }
        }
        assert forall|j: int| 0 <= j < seq_first_index(s, v) implies s[j] != v by {
            if j > 0 {
                assert(s.drop_first()[j - 1] == s[j]);
            }
        }
        if seq_first_index(s.drop_first(), v) < s.drop_first().len() {
            assert(s[seq_first_index(s, v)] == s.drop_first()[seq_first_index(
                s.drop_first(),
                v,
            )]);
        }
    }
}

/// Every edge out of a finished binding leads back to an earlier-finished
/// one.
pub open spec fn fin_closed(bindings: Seq<Binding>, fin: Seq<int>) -> bool {
    forall|a: int, w: int|
        0 <= a < fin.len() && #[trigger] quote_edge(bindings, fin[a], w) ==> exists|c: int|
            0 <= c < a && fin[c] == w
}

/// Along a chain of edges within a closed finish order, the first-finish
/// position strictly decreases.
proof fn lemma_chain_descends(bindings: Seq<Binding>, fin: Seq<int>, p: Seq<int>)
    requires
        fin_closed(bindings, fin),
        p.len() >= 2,
        forall|k: int| 0 <= k < p.len() - 1 ==> #[trigger] quote_edge(bindings, p[k], p[k + 1]),
        forall|k: int| 0 <= k < p.len() ==> fin.contains(#[trigger] p[k]),
    ensures
        seq_first_index(fin, p[p.len() - 1]) < seq_first_index(fin, p[0]),
    decreases p.len(),
{
    lemma_seq_first_index(fin, p[0]);
    lemma_seq_first_index(fin, p[1]);
    let a0 = seq_first_index(fin, p[0]);
    let k0: int = 0;
    assert(quote_edge(bindings, p[k0], p[k0 + 1]));
    assert(quote_edge(bindings, p[0], p[1]));
    assert(fin[a0] == p[0]);
    assert(quote_edge(bindings, fin[a0], p[1]));
    let c = choose|c: int| 0 <= c < a0 && fin[c] == p[1];
    assert(seq_first_index(fin, p[1]) <= c) by {
        if seq_first_index(fin, p[1]) > c {
            assert(fin[c] != p[1]);
        }
    }
    if p.len() > 2 {
        let q = p.drop_first();
        assert forall|k: int|
            0 <= k < q.len() - 1 implies #[trigger] quote_edge(bindings, q[k], q[k + 1]) by {
            assert(q[k] == p[k + 1]);
            assert(q[k + 1] == p[k + 2]);
        }
        assert forall|k: int| 0 <= k < q.len() implies fin.contains(#[trigger] q[k]) by {
            assert(q[k] == p[k + 1]);
        }
        lemma_chain_descends(bindings, fin, q);
        assert(q[q.len() - 1] == p[p.len() - 1]);
        assert(q[0] == p[1]);
    }
}

/// A complete, closed finish order certifies the graph acyclic: every
/// edge strictly decreases the finish position, which no closed walk can.
proof fn lemma_fin_closed_acyclic(bindings: Seq<Binding>, fin: Seq<int>)
    requires
        fin_closed(bindings, fin),
        forall|v: int| 0 <= v < bindings.len() ==> fin.contains(v),
    ensures
        !has_quote_cycle(bindings),
{
    if has_quote_cycle(bindings) {
        let p = choose|p: Seq<int>| is_quote_cycle(bindings, p);
        assert forall|k: int| 0 <= k < p.len() implies fin.contains(#[trigger] p[k]) by {
            if k < p.len() - 1 {
                assert(quote_edge(bindings, p[k], p[k + 1]));
            } else {
                let k0: int = 0;
                assert(quote_edge(bindings, p[k0], p[k0 + 1]));
                assert(p[k] == p[0]);
            }
        }
        lemma_chain_descends(bindings, fin, p);
        assert(p[p.len() - 1] == p[0]);
        assert(false);
    }
}

/// Index of the first binding with the given name.
fn binding_index(bindings: &Vec<Binding>, name: &str) -> (r: Option<usize>)
    ensures
        match r {
            Some(i) => i < bindings@.len() && bindings@[i as int].name@ == name@ && i as int
                == name_index(bindings@, name@),
            None => name_index(bindings@, name@) == bindings@.len(),
        },
{
    proof {
        lemma_name_index(bindings@, name@);
    }
    let mut i: usize = 0;
    while i < bindings.len()
        invariant
            0 <= i <= bindings@.len(),
            forall|j: int| 0 <= j < i ==> (#[trigger] bindings@[j]).name@ != name@,
        decreases bindings@.len() - i,
    {
        if str_eq(bindings[i].name.as_str(), name) {
            proof {
                lemma_name_index(bindings@, name@);
                if name_index(bindings@, name@) < i {
                    assert(bindings@[name_index(bindings@, name@)].name@ == name@);
                }
            }
            return Some(i);
        }
        i += 1;
    }
    proof {
        lemma_name_index(bindings@, name@);
        if name_index(bindings@, name@) < bindings@.len() {
            assert(bindings@[name_index(bindings@, name@)].name@ == name@);
        }
    }
    None
}

/// Depth-first traversal from one binding, keeping an explicit on-path
/// marker set; the first back edge reports a cycle and stops the
/// traversal from this root. The ghost `path` names the bindings behind
/// the on-path markers in visiting order, and the ghost `fin` the
/// finished bindings in finishing order; a closed finish order certifies
/// the part already searched cycle-free.
fn visit(
    bindings: &Vec<Binding>,
    node: usize,
    on_path: &mut Vec<bool>,
    visited: &mut Vec<bool>,
    problems: &mut Vec<Problem>,
    Ghost(path): Ghost<Seq<int>>,
    Ghost(fin): Ghost<Seq<int>>,
) -> (res: (bool, Ghost<Seq<int>>))
    requires
        node < bindings@.len(),
        old(on_path)@.len() == bindings@.len(),
        old(visited)@.len() == bindings@.len(),
        !old(on_path)@[node as int],
        !old(visited)@[node as int],
        forall|k: int| 0 <= k < path.len() ==> 0 <= #[trigger] path[k] < bindings@.len(),
        forall|k: int|
            0 <= k < path.len() - 1 ==> #[trigger] quote_edge(bindings@, path[k], path[k + 1]),
        forall|v: int|
            0 <= v < bindings@.len() ==> ((#[trigger] old(on_path)@[v]) <==> path.contains(v)),
        path.len() > 0 ==> quote_edge(bindings@, path[path.len() - 1], node as int),
        forall|v: int|
            0 <= v < bindings@.len() ==> ((#[trigger] old(visited)@[v]) <==> fin.contains(v)),
        forall|k: int| 0 <= k < fin.len() ==> 0 <= #[trigger] fin[k] < bindings@.len(),
        old(problems)@.len() == 0 ==> fin_closed(bindings@, fin),
        forall|i: int|
            0 <= i < old(problems)@.len() ==> (#[trigger] old(problems)@[i]).code
                == ErrorCode::CircularDependencyQuote,
        forall|i: int|
            0 <= i < old(problems)@.len() ==> cycle_problem_position(
                bindings@,
                #[trigger] old(problems)@[i],
            ),
        old(problems)@.len() > 0 ==> has_quote_cycle(bindings@),
    ensures
        final(on_path)@ == old(on_path)@,
        final(visited)@.len() == bindings@.len(),
        forall|i: int|
            0 <= i < final(problems)@.len() ==> (#[trigger] final(problems)@[i]).code
                == ErrorCode::CircularDependencyQuote,
        forall|i: int|
            0 <= i < final(problems)@.len() ==> cycle_problem_position(
                bindings@,
                #[trigger] final(problems)@[i],
            ),
        final(problems)@.len() >= old(problems)@.len(),
        res.0 ==> final(problems)@.len() > old(problems)@.len(),
        final(problems)@.len() > 0 ==> has_quote_cycle(bindings@),
        bindings@[node as int].dependencies@.len() == 0 ==> final(problems)@ == old(problems)@,
        forall|v: int|
            0 <= v < bindings@.len() ==> ((#[trigger] final(visited)@[v]) <==> res.1@.contains(
                v,
            )),
        forall|k: int| 0 <= k < res.1@.len() ==> 0 <= #[trigger] res.1@[k] < bindings@.len(),
        final(problems)@.len() == 0 ==> fin_closed(bindings@, res.1@),
        forall|v: int| #[trigger] fin.contains(v) ==> res.1@.contains(v),
        forall|v: int|
            #[trigger] res.1@.contains(v) && !fin.contains(v) ==> !old(on_path)@[v],
        final(visited)@[node as int],
    decreases bindings@.len() - count_true(old(on_path)@),
{
    proof {
        lemma_count_true_bound(on_path@);
        lemma_count_true_update(on_path@, node as int);
    }
    let ghost entry_path = on_path@;
    let ghost p0 = old(problems)@.len();
    let ghost full_path = path.push(node as int);
    on_path.set(node, true);
    let ghost mut fin_cur = fin;
    proof {
        assert forall|v: int|
            0 <= v < bindings@.len() implies ((#[trigger] on_path@[v]) <==> full_path.contains(
            v,
        )) by {
            lemma_contains_push(path, node as int, v);
        }
        assert(full_path[full_path.len() - 1] == node as int);
        assert forall|k: int|
            0 <= k < full_path.len() - 1 implies #[trigger] quote_edge(
            bindings@,
            full_path[k],
            full_path[k + 1],
        ) by {
            if k < path.len() - 1 {
                assert(full_path[k] == path[k]);
                assert(full_path[k + 1] == path[k + 1]);
            } else {
                assert(full_path[k] == path[path.len() - 1]);
            }
        }
    }
    let mut found = false;
    let mut d: usize = 0;
    let ndeps = bindings[node].dependencies.len();
    while d < ndeps && !found
        invariant
            node < bindings@.len(),
            ndeps == bindings@[node as int].dependencies@.len(),
            0 <= d <= ndeps,
            on_path@ == entry_path.update(node as int, true),
            entry_path == old(on_path)@,
            entry_path.len() == bindings@.len(),
            !entry_path[node as int],
            visited@.len() == bindings@.len(),
            full_path == path.push(node as int),
            forall|k: int|
                0 <= k < full_path.len() ==> 0 <= #[trigger] full_path[k] < bindings@.len(),
            forall|k: int|
                0 <= k < full_path.len() - 1 ==> #[trigger] quote_edge(
                    bindings@,
                    full_path[k],
                    full_path[k + 1],
                ),
            full_path[full_path.len() - 1] == node as int,
            forall|v: int|
                0 <= v < bindings@.len() ==> ((#[trigger] on_path@[v]) <==> full_path.contains(
                    v,
                )),
            forall|v: int|
                0 <= v < bindings@.len() ==> ((#[trigger] visited@[v]) <==> fin_cur.contains(
                    v,
                )),
            forall|k: int| 0 <= k < fin_cur.len() ==> 0 <= #[trigger] fin_cur[k] < bindings@.len(),
            problems@.len() == 0 ==> fin_closed(bindings@, fin_cur),
            forall|v: int| #[trigger] fin.contains(v) ==> fin_cur.contains(v),
            forall|v: int|
                #[trigger] fin_cur.contains(v) && !fin.contains(v) ==> !entry_path[v] && v
                    != node as int,
            !visited@[node as int],
            problems@.len() == 0 ==> forall|e: int|
                0 <= e < d ==> (name_index(
                    bindings@,
                    (#[trigger] bindings@[node as int].dependencies@[e])@,
                ) < bindings@.len() ==> fin_cur.contains(name_index(
                    bindings@,
                    bindings@[node as int].dependencies@[e]@,
                ))),
            forall|i: int|
                0 <= i < problems@.len() ==> (#[trigger] problems@[i]).code
                    == ErrorCode::CircularDependencyQuote,
            forall|i: int|
                0 <= i < problems@.len() ==> cycle_problem_position(
                    bindings@,
                    #[trigger] problems@[i],
                ),
            problems@.len() >= p0,
            p0 == old(problems)@.len(),
            d == 0 ==> problems@ == old(problems)@,
            found ==> problems@.len() > p0,
            problems@.len() > 0 ==> has_quote_cycle(bindings@),
            count_true(on_path@) == count_true(entry_path) + 1,
        decreases ndeps - d,
    {
        let dep_name = &bindings[node].dependencies[d];
        match binding_index(bindings, dep_name.as_str()) {
            Some(target) => {
                proof {
                    assert(quote_edge(bindings@, node as int, target as int)) by {
                        assert(name_index(
                            bindings@,
                            (bindings@[node as int].dependencies@[d as int])@,
                        ) == target as int);
                    }
                }
                if on_path[target] {
                    // a back edge: the quoted binding is already on the
                    // current path, which closes a walk
                    proof {
                        assert(full_path.contains(target as int));
                        let k = choose|k: int|
                            0 <= k < full_path.len() && full_path[k] == target as int;
                        let cyc = full_path.subrange(k, full_path.len() as int).push(
                            target as int,
                        );
                        assert(is_quote_cycle(bindings@, cyc)) by {
                            assert(cyc[0] == full_path[k]);
                            assert(cyc[cyc.len() - 1] == target as int);
                            assert forall|m: int|
                                0 <= m < cyc.len() - 1 implies #[trigger] quote_edge(
                                bindings@,
                                cyc[m],
                                cyc[m + 1],
                            ) by {
                                if m < cyc.len() - 2 {
                                    assert(cyc[m] == full_path[k + m]);
                                    assert(cyc[m + 1] == full_path[k + m + 1]);
                                    assert(quote_edge(
                                        bindings@,
                                        full_path[k + m],
                                        full_path[k + m + 1],
                                    ));
                                } else {
                                    assert(cyc[m] == full_path[full_path.len() - 1]);
                                    assert(cyc[m + 1] == target as int);
                                }
                            }
                        }
                        assert(has_quote_cycle(bindings@));
                    }
                    let pos = match find_quote(
                        bindings[node].content.as_str(),
                        dep_name.as_str(),
                    ) {
                        Some(rel) => {
                            let base = bindings[node].content_position.start;
                            let nl = dep_name.as_str().unicode_len();
                            if rel < usize::MAX && nl <= usize::MAX - rel - 1 && base
                                <= usize::MAX - (rel + 1 + nl) {
                                Offsets { start: base + rel, end: base + rel + 1 + nl }
                            } else {
                                bindings[node].content_position
                            }
                        },
                        None => bindings[node].content_position,
                    };
                    let p = ErrorCode::CircularDependencyQuote.to_problem(Vec::new(), pos);
                    problems.push(p);
                    proof {
                        assert(cycle_problem_position(bindings@, p)) by {
                            let i0 = node as int;
                            let d0 = d as int;
                            assert(0 <= i0 < bindings@.len() && 0 <= d0
                                < bindings@[i0].dependencies@.len() && (p.position
                                == bindings@[i0].content_position || {
                                let name = bindings@[i0].dependencies@[d0]@;
                                &&& p.position.start >= bindings@[i0].content_position.start
                                &&& occurs_at(
                                    bindings@[i0].content@,
                                    seq!['\''] + name,
                                    p.position.start - bindings@[i0].content_position.start,
                                )
                                &&& p.position.end == p.position.start + 1 + name.len()
                            }));
                        }
                    }
                    found = true;
                } else if !visited[target] {
                    proof {
                        lemma_count_true_bound(on_path@);
                    }
                    let r2 = visit(
                        bindings,
                        target,
                        on_path,
                        visited,
                        problems,
                        Ghost(full_path),
                        Ghost(fin_cur),
                    );
                    proof {
                        fin_cur = r2.1@;
                        assert(fin_cur.contains(target as int));
                    }
                    if r2.0 {
                        found = true;
                    }
                } else {
                    proof {
                        assert(fin_cur.contains(target as int));
                    }
                }
            },
            None => {
                proof {
                    assert(name_index(
                        bindings@,
                        (bindings@[node as int].dependencies@[d as int])@,
                    ) == bindings@.len());
                }
            },
        }
        d += 1;
    }
    on_path.set(node, false);
    proof {
        assert(on_path@ =~= entry_path);
    }
    visited.set(node, true);
    let ghost fin_new = fin_cur.push(node as int);
    proof {
        assert(!fin_cur.contains(node as int));
        assert forall|v: int|
            0 <= v < bindings@.len() implies ((#[trigger] visited@[v]) <==> fin_new.contains(
            v,
        )) by {
            lemma_contains_push(fin_cur, node as int, v);
        }
        assert forall|k: int|
            0 <= k < fin_new.len() implies 0 <= #[trigger] fin_new[k] < bindings@.len() by {
            if k < fin_cur.len() {
                assert(fin_new[k] == fin_cur[k]);
            }
        }
        if problems@.len() == 0 {
            assert(!found);
            assert(d == ndeps);
            assert(fin_closed(bindings@, fin_new)) by {
                assert forall|a: int, w: int|
                    0 <= a < fin_new.len() && #[trigger] quote_edge(
                    bindings@,
                    fin_new[a],
                    w,
                ) implies exists|c: int| 0 <= c < a && fin_new[c] == w by {
                    if a < fin_cur.len() {
                        assert(fin_new[a] == fin_cur[a]);
                        assert(quote_edge(bindings@, fin_cur[a], w));
                        let c = choose|c: int| 0 <= c < a && fin_cur[c] == w;
                        assert(fin_new[c] == w);
                    } else {
                        assert(fin_new[a] == node as int);
                        let dd = choose|dd: int|
                            0 <= dd < bindings@[node as int].dependencies@.len() && name_index(
                                bindings@,
                                (#[trigger] bindings@[node as int].dependencies@[dd])@,
                            ) == w;
                        assert(fin_cur.contains(w));
                        let c = choose|c: int| 0 <= c < fin_cur.len() && fin_cur[c] == w;
                        assert(fin_new[c] == w);
                    }
                }
            }
        }
        assert forall|v: int| #[trigger] fin.contains(v) implies fin_new.contains(v) by {
            lemma_contains_push(fin_cur, node as int, v);
        }
        assert forall|v: int|
            #[trigger] fin_new.contains(v) && !fin.contains(v) implies !old(on_path)@[v] by {
            lemma_contains_push(fin_cur, node as int, v);
        }
    }
    (found, Ghost(fin_new))
}

/// Builds the binding reference graph from every binding's dependency
/// names and runs the depth-first traversal from every root: a problem
/// comes back exactly when the quote graph has a cycle, positioned at the
/// quoting token of the back edge; independent roots are still checked
/// after a report.
pub fn detect_cycles(bindings: &Vec<Binding>) -> (r: Vec<Problem>)
    ensures
        forall|i: int|
            0 <= i < r@.len() ==> (#[trigger] r@[i]).code == ErrorCode::CircularDependencyQuote,
        forall|i: int|
            0 <= i < r@.len() ==> cycle_problem_position(bindings@, #[trigger] r@[i]),
        r@.len() > 0 <==> has_quote_cycle(bindings@),
        (forall|i: int|
            0 <= i < bindings@.len() ==> (#[trigger] bindings@[i]).dependencies@.len() == 0)
            ==> r@.len() == 0,
{
    let n = bindings.len();
    let mut on_path: Vec<bool> = Vec::new();
    let mut visited: Vec<bool> = Vec::new();
    let mut i: usize = 0;
    while i < n
        invariant
            0 <= i <= n,
            on_path@.len() == i,
            visited@.len() == i,
            forall|j: int| 0 <= j < i ==> !(#[trigger] on_path@[j]),
            forall|j: int| 0 <= j < i ==> !(#[trigger] visited@[j]),
        decreases n - i,
    {
        on_path.push(false);
        visited.push(false);
        i += 1;
    }
    let mut problems: Vec<Problem> = Vec::new();
    let ghost mut fin: Seq<int> = Seq::empty();
    let mut root: usize = 0;
    while root < n
        invariant
            n == bindings@.len(),
            0 <= root <= n,
            on_path@.len() == n,
            visited@.len() == n,
            forall|j: int| 0 <= j < n ==> !(#[trigger] on_path@[j]),
            forall|v: int| 0 <= v < n ==> ((#[trigger] visited@[v]) <==> fin.contains(v)),
            forall|k: int| 0 <= k < fin.len() ==> 0 <= #[trigger] fin[k] < n,
            problems@.len() == 0 ==> fin_closed(bindings@, fin),
            forall|j: int| 0 <= j < root ==> (#[trigger] visited@[j]),
            forall|i: int|
                0 <= i < problems@.len() ==> (#[trigger] problems@[i]).code
                    == ErrorCode::CircularDependencyQuote,
            forall|i: int|
                0 <= i < problems@.len() ==> cycle_problem_position(
                    bindings@,
                    #[trigger] problems@[i],
                ),
            problems@.len() > 0 ==> has_quote_cycle(bindings@),
        decreases n - root,
    {
        let mut skip = false;
        if visited[root] {
            skip = true;
        }
        if !skip {
            let ghost fin_before = fin;
            let ghost visited_before = visited@;
            let r2 = visit(
                bindings,
                root,
                &mut on_path,
                &mut visited,
                &mut problems,
                Ghost(Seq::empty()),
                Ghost(fin),
            );
            proof {
                fin = r2.1@;
                assert forall|j: int| 0 <= j < root + 1 implies (#[trigger] visited@[j]) by {
                    if j < root {
                        assert(visited_before[j]);
                        assert(fin_before.contains(j));
                        assert(fin.contains(j));
                    }
                }
            }
        }
        root += 1;
    }
    proof {
        if problems@.len() == 0 {
            assert forall|v: int| 0 <= v < bindings@.len() implies fin.contains(v) by {
                assert(visited@[v]);
            }
            lemma_fin_closed_acyclic(bindings@, fin);
        }
        if forall|i: int|
            0 <= i < bindings@.len() ==> (#[trigger] bindings@[i]).dependencies@.len() == 0 {
            if has_quote_cycle(bindings@) {
                let p = choose|p: Seq<int>| is_quote_cycle(bindings@, p);
                let k0: int = 0;
                assert(quote_edge(bindings@, p[k0], p[k0 + 1]));
                assert(false);
            }
        }
    }
    problems
}

} // verus!