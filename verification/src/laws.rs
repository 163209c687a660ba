//! The laws of the command trie, each proved once and for all.
//!
//! The contracts of [`Mapping`](crate::mapping::Mapping) describe single
//! calls; the proof functions here state what those contracts add up to:
//! what a registered command guarantees for later lookups, when
//! registration must fail and what a failed registration leaves behind,
//! and how the partial walk behaves at the edges of the registered tree.

use vstd::prelude::*;

use crate::decision::Decider;
use crate::decision::Decision;
use crate::decision::LookErrorView;
use crate::decision::RegError;
use crate::mapping::MapOrDescView;
use crate::mapping::Mapping;
use crate::mapping::child_in;
use crate::mapping::lemma_child_in_mem;

verus! {

/// The walk of `lemma_lookup_registered_path`, anchored at any node: a
/// caller who has walked partway in — past decider edges, for instance —
/// composes this with the walk relation at the node reached.
pub proof fn lemma_lookup_rel_literal_from<
    A,
    D,
    F: Copy,
    DF: Copy + Fn(Vec<String>) -> (Decision<D>, Vec<A>),
>(
    m: Mapping<A, D, F, DF>,
    i: int,
    path: Seq<Seq<char>>,
    fin: F,
    acc: Seq<A>,
    r: Result<(F, Seq<A>), LookErrorView<D>>,
)
    requires
        m.descend(i, path) is Some,
        m.nodes@[m.descend(i, path).unwrap()].finalizer == Some(fin),
        forall|l: int|
            0 < l <= path.len() ==> (#[trigger] m.descend(i, path.take(l))) is Some
                && m.nodes@[m.descend(i, path.take(l)).unwrap()].decider is None,
        m.lookup_rel(i, path, acc, r),
    ensures
        r == Ok::<(F, Seq<A>), LookErrorView<D>>((fin, acc)),
    decreases path.len(),
{
    if path.len() == 0 {
    } else {
        match m.child_of(i, path[0]) {
            Some(c) => {
                assert(path.take(1)[0] == path[0]);
                assert(path.take(1).skip(1) =~= Seq::<Seq<char>>::empty());
                assert(m.descend(c, path.take(1).skip(1)) == Some(c));
                assert(m.descend(i, path.take(1)) == Some(c));
                assert(m.nodes@[c].decider is None);
                assert(m.descend(c, path.skip(1)) == m.descend(i, path));
                assert forall|l: int|
                    0 < l <= path.skip(1).len() implies (#[trigger] m.descend(
                    c,
                    path.skip(1).take(l),
                )) is Some && m.nodes@[m.descend(c, path.skip(1).take(l)).unwrap()].decider
                    is None by {
                    assert(path.take(l + 1)[0] == path[0]);
                    assert(path.take(l + 1).skip(1) =~= path.skip(1).take(l));
                    assert(m.descend(i, path.take(l + 1)) == m.descend(c, path.skip(1).take(l)));
                    assert((m.descend(i, path.take(l + 1))) is Some && m.nodes@[m.descend(
                        i,
                        path.take(l + 1),
                    ).unwrap()].decider is None);
                }
                lemma_lookup_rel_literal_from(m, c, path.skip(1), fin, acc, r);
            },
            None => {
                assert(m.descend(i, path) is None);
                assert(false);
            },
        }
    }
}

/// Looking up a registered command resolves to its finalizer.
///
/// If a path of literal segments, none of whose edges carries a decider —
/// exactly what a successful decider-free registration leaves behind —
/// ends in a node holding finalizer `fin`, then the only outcome a lookup
/// of those segments allows is success with that very finalizer, and the
/// argument buffer is exactly what was collected before the walk: empty,
/// for a lookup started fresh.  On paths with deciders, the values the
/// deciders produce are appended in segment order; that part of the law is
/// the lookup contract itself.
pub proof fn lemma_lookup_registered_path<
    A,
    D,
    F: Copy,
    DF: Copy + Fn(Vec<String>) -> (Decision<D>, Vec<A>),
>(
    m: Mapping<A, D, F, DF>,
    path: Seq<Seq<char>>,
    fin: F,
    acc: Seq<A>,
    r: Result<(F, Seq<A>), LookErrorView<D>>,
)
    requires
        m.finalizer_at(path) == Some(fin),
        forall|l: int| 0 < l <= path.len() ==> #[trigger] m.decider_at(path.take(l)) is None,
        m.lookup_rel(0, path, acc, r),
    ensures
        r == Ok::<(F, Seq<A>), LookErrorView<D>>((fin, acc)),
{
    assert forall|l: int|
        0 < l <= path.len() implies (#[trigger] m.descend(0, path.take(l))) is Some
        && m.nodes@[m.descend(0, path.take(l)).unwrap()].decider is None by {
        m.lemma_has_node_prefix(path, l);
        assert(m.decider_at(path.take(l)) is None);
    }
    lemma_lookup_rel_literal_from(m, 0, path, fin, acc, r);
}

/// An unregistered first segment always fails as `UnknownMapping`, naming
/// that exact segment.
pub proof fn lemma_lookup_unknown_segment<
    A,
    D,
    F: Copy,
    DF: Copy + Fn(Vec<String>) -> (Decision<D>, Vec<A>),
>(
    m: Mapping<A, D, F, DF>,
    tokens: Seq<Seq<char>>,
    acc: Seq<A>,
    r: Result<(F, Seq<A>), LookErrorView<D>>,
)
    requires
        tokens.len() > 0,
        !m.child_names(Seq::<Seq<char>>::empty()).contains(tokens[0]),
        m.lookup_rel(0, tokens, acc, r),
    ensures
        r == Err::<(F, Seq<A>), LookErrorView<D>>(LookErrorView::UnknownMapping(tokens[0])),
{
    let step = Seq::<Seq<char>>::empty().push(tokens[0]);
    assert(step[0] == tokens[0]);
    assert(step.skip(1) =~= Seq::<Seq<char>>::empty());
    match m.child_of(0, tokens[0]) {
        Some(c) => {
            assert(m.descend(c, step.skip(1)) == Some(c));
            assert(m.descend(0, step) == Some(c));
            assert(false);
        },
        None => {},
    }
}

/// Registering the same complete path twice is refused.
///
/// If the path is already a complete command, registering it again — with
/// no decider supplied on any edge, as in a plain re-registration — yields
/// `FinalizerAlreadyExists`.  Together with the registration contract,
/// which guarantees that a failing call returns the trie untouched, the
/// existing command survives and still resolves.
pub proof fn lemma_register_twice_finalizer<A, D, F, DF>(
    m: Mapping<A, D, F, DF>,
    path: Seq<(String, Option<Decider<DF>>)>,
)
    requires
        m.finalizer_at(Mapping::<A, D, F, DF>::names_of(path)) is Some,
        forall|l: int| 0 <= l < path.len() ==> (#[trigger] path[l]).1 is None,
    ensures
        m.spec_register_result(0, path) == Err::<(), RegError>(RegError::FinalizerAlreadyExists),
{
    lemma_register_rel_finalizer_from(m, 0, path);
}

/// The walk of `lemma_register_twice_finalizer`, anchored at any node.
pub proof fn lemma_register_rel_finalizer_from<A, D, F, DF>(
    m: Mapping<A, D, F, DF>,
    i: int,
    path: Seq<(String, Option<Decider<DF>>)>,
)
    requires
        m.descend(i, Mapping::<A, D, F, DF>::names_of(path)) is Some,
        m.nodes@[m.descend(i, Mapping::<A, D, F, DF>::names_of(path)).unwrap()].finalizer is Some,
        forall|l: int| 0 <= l < path.len() ==> (#[trigger] path[l]).1 is None,
    ensures
        m.spec_register_result(i, path) == Err::<(), RegError>(RegError::FinalizerAlreadyExists),
    decreases path.len(),
{
    let names = Mapping::<A, D, F, DF>::names_of(path);
    if path.len() == 0 {
    } else {
        assert(names[0] == path[0].0@);
        match m.child_of(i, path[0].0@) {
            Some(c) => {
                assert(m.descend(c, names.skip(1)) == m.descend(i, names));
                assert(Mapping::<A, D, F, DF>::names_of(path.skip(1)) =~= names.skip(1));
                assert forall|l: int|
                    0 <= l < path.skip(1).len() implies (#[trigger] path.skip(1)[l]).1 is None by {
                    assert(path.skip(1)[l] == path[l + 1]);
                }
                lemma_register_rel_finalizer_from(m, c, path.skip(1));
            },
            None => {
                assert(m.descend(i, names) is None);
                assert(false);
            },
        }
    }
}

/// Supplying a decider for an edge that already exists is refused.
///
/// If segment `l` of the path carries a decider, the edge it names already
/// exists in the trie, and no earlier segment of the path carries a
/// decider, then registration yields `DeciderAlreadyExists` — whether or
/// not the existing edge had a decider of its own.
pub proof fn lemma_register_decider_conflict<A, D, F, DF>(
    m: Mapping<A, D, F, DF>,
    path: Seq<(String, Option<Decider<DF>>)>,
    l: int,
)
    requires
        0 <= l < path.len(),
        m.has_node(Mapping::<A, D, F, DF>::names_of(path).take(l + 1)),
        path[l].1 is Some,
        forall|l2: int| 0 <= l2 < l ==> (#[trigger] path[l2]).1 is None,
    ensures
        m.spec_register_result(0, path) == Err::<(), RegError>(RegError::DeciderAlreadyExists),
{
    lemma_register_rel_decider_from(m, 0, path, l);
}

/// The walk of `lemma_register_decider_conflict`, anchored at any node.
pub proof fn lemma_register_rel_decider_from<A, D, F, DF>(
    m: Mapping<A, D, F, DF>,
    i: int,
    path: Seq<(String, Option<Decider<DF>>)>,
    l: int,
)
    requires
        0 <= l < path.len(),
        m.descend(i, Mapping::<A, D, F, DF>::names_of(path).take(l + 1)) is Some,
        path[l].1 is Some,
        forall|l2: int| 0 <= l2 < l ==> (#[trigger] path[l2]).1 is None,
    ensures
        m.spec_register_result(i, path) == Err::<(), RegError>(RegError::DeciderAlreadyExists),
    decreases l,
{
    let names = Mapping::<A, D, F, DF>::names_of(path);
    let prefix = names.take(l + 1);
    assert(prefix[0] == names[0]);
    assert(names[0] == path[0].0@);
    match m.child_of(i, path[0].0@) {
        Some(c) => {
            if l == 0 {
            } else {
                assert(m.descend(c, prefix.skip(1)) == m.descend(i, prefix));
                assert(Mapping::<A, D, F, DF>::names_of(path.skip(1)) =~= names.skip(1));
                assert(names.skip(1).take(l) =~= prefix.skip(1));
                assert(path.skip(1)[l - 1] == path[l]);
                assert forall|l2: int|
                    0 <= l2 < l - 1 implies (#[trigger] path.skip(1)[l2]).1 is None by {
                    assert(path.skip(1)[l2] == path[l2 + 1]);
                }
                lemma_register_rel_decider_from(m, c, path.skip(1), l - 1);
            }
        },
        None => {
            assert(m.descend(i, prefix) is None);
            assert(false);
        },
    }
}

/// A decider that overruns the input makes the lookup fail as
/// `DeciderAdvancedTooFar`.
///
/// At any node of the walk — the root of a fresh lookup, or a node that
/// earlier segments led to — if the next token names an edge whose
/// decider can only accept more tokens than the walk still holds, the
/// segment token and everything after it, then that error is the walk's
/// only possible outcome.
pub proof fn lemma_decider_overrun<
    A,
    D,
    F: Copy,
    DF: Copy + Fn(Vec<String>) -> (Decision<D>, Vec<A>),
>(
    m: Mapping<A, D, F, DF>,
    i: int,
    dec: Decider<DF>,
    tokens: Seq<Seq<char>>,
    acc: Seq<A>,
    r: Result<(F, Seq<A>), LookErrorView<D>>,
)
    requires
        tokens.len() > 0,
        ({
            let c = m.child_of(i, tokens[0]);
            c is Some && m.nodes@[c.unwrap()].decider == Some(dec)
        }),
        forall|args: Vec<String>, ret: (Decision<D>, Vec<A>)|
            #[trigger] call_ensures(dec.decider, (args,), ret) ==> (ret.0 matches Decision::Accept(
                k,
            ) && k >= tokens.len()),
        m.lookup_rel(i, tokens, acc, r),
    ensures
        r == Err::<(F, Seq<A>), LookErrorView<D>>(LookErrorView::DeciderAdvancedTooFar),
{
    match m.child_of(i, tokens[0]) {
        Some(c) => {
            assert(m.nodes@[c].decider == Some(dec));
            let (args, ret) = choose|args: Vec<String>, ret: (Decision<D>, Vec<A>)|
                {
                    &&& crate::mapping::token_views(args@) == tokens.skip(1)
                    &&& #[trigger] call_ensures(dec.decider, (args,), ret)
                    &&& match ret.0 {
                        Decision::Accept(k) => if k < tokens.len() {
                            m.lookup_rel(c, tokens.skip(1 + k as int), acc + ret.1@, r)
                        } else {
                            r == Err::<(F, Seq<A>), LookErrorView<D>>(
                                LookErrorView::DeciderAdvancedTooFar,
                            )
                        },
                        Decision::Deny(d) => r == Err::<(F, Seq<A>), LookErrorView<D>>(
                            LookErrorView::DeciderDenied(dec.description@, d),
                        ),
                    }
                };
            assert(call_ensures(dec.decider, (args,), ret));
        },
        None => {
            assert(false);
        },
    }
}

/// A final segment with a decider hands back exactly what the decider
/// produced.
///
/// At any node of the walk, when the next token names an edge whose
/// decider ends in a node with finalizer `fin` and every acceptance the
/// decider allows covers the whole rest of the input — the shape of a
/// parse-everything decider — a successful walk returns that finalizer,
/// and its argument buffer is what was collected before plus, verbatim
/// and in order, the output of one run of the decider on the tokens after
/// the segment.
pub proof fn lemma_lookup_decider_arguments<
    A,
    D,
    F: Copy,
    DF: Copy + Fn(Vec<String>) -> (Decision<D>, Vec<A>),
>(
    m: Mapping<A, D, F, DF>,
    i: int,
    dec: Decider<DF>,
    fin: F,
    tokens: Seq<Seq<char>>,
    acc: Seq<A>,
    f: F,
    buf: Seq<A>,
)
    requires
        tokens.len() >= 1,
        ({
            let c = m.child_of(i, tokens[0]);
            c is Some && m.nodes@[c.unwrap()].decider == Some(dec)
                && m.nodes@[c.unwrap()].finalizer == Some(fin)
        }),
        forall|args: Vec<String>, ret: (Decision<D>, Vec<A>)|
            #[trigger] call_ensures(dec.decider, (args,), ret) ==> (ret.0 matches Decision::Accept(
                k,
            ) && k == tokens.len() - 1),
        m.lookup_rel(i, tokens, acc, Ok((f, buf))),
    ensures
        f == fin,
        exists|args: Vec<String>, ret: (Decision<D>, Vec<A>)|
            crate::mapping::token_views(args@) == tokens.skip(1) && #[trigger] call_ensures(
                dec.decider,
                (args,),
                ret,
            ) && buf == acc + ret.1@,
{
    let r = Ok::<(F, Seq<A>), LookErrorView<D>>((f, buf));
    match m.child_of(i, tokens[0]) {
        Some(c) => {
            assert(m.nodes@[c].decider == Some(dec));
            assert(m.nodes@[c].finalizer == Some(fin));
            let (args, ret) = choose|args: Vec<String>, ret: (Decision<D>, Vec<A>)|
                {
                    &&& crate::mapping::token_views(args@) == tokens.skip(1)
                    &&& #[trigger] call_ensures(dec.decider, (args,), ret)
                    &&& match ret.0 {
                        Decision::Accept(k) => if k < tokens.len() {
                            m.lookup_rel(c, tokens.skip(1 + k as int), acc + ret.1@, r)
                        } else {
                            r == Err::<(F, Seq<A>), LookErrorView<D>>(
                                LookErrorView::DeciderAdvancedTooFar,
                            )
                        },
                        Decision::Deny(d) => r == Err::<(F, Seq<A>), LookErrorView<D>>(
                            LookErrorView::DeciderDenied(dec.description@, d),
                        ),
                    }
                };
            assert(call_ensures(dec.decider, (args,), ret));
            match ret.0 {
                Decision::Accept(k) => {
                    assert(k == tokens.len() - 1);
                    assert(tokens.skip(1 + k as int) =~= Seq::<Seq<char>>::empty());
                    assert(m.lookup_rel(c, Seq::<Seq<char>>::empty(), acc + ret.1@, r));
                    assert(r == Ok::<(F, Seq<A>), LookErrorView<D>>((fin, acc + ret.1@)));
                    assert(buf == acc + ret.1@);
                },
                Decision::Deny(_) => {
                    assert(false);
                },
            }
        },
        None => {
            assert(false);
        },
    }
}

/// A partial lookup of an incomplete command lands on the node whose
/// children are the legal continuations.
///
/// Walking a decider-free path that exists in the trie — for instance a
/// registered command minus its last segments — resolves to exactly the
/// node at that path, whose direct keys a caller then lists for
/// completion.
pub proof fn lemma_partial_literal_path<
    A,
    D,
    F: Copy,
    DF: Copy + Fn(Vec<String>) -> (Decision<D>, Vec<A>),
>(
    m: Mapping<A, D, F, DF>,
    path: Seq<Seq<char>>,
    acc: Seq<A>,
    r: Result<(MapOrDescView, Seq<A>), LookErrorView<D>>,
)
    requires
        m.has_node(path),
        forall|l: int| 0 < l <= path.len() ==> #[trigger] m.decider_at(path.take(l)) is None,
        m.partial_rel(0, path, acc, r),
    ensures
        r == Ok::<(MapOrDescView, Seq<A>), LookErrorView<D>>(
            (MapOrDescView::Mapping(m.node_at(path).unwrap()), acc),
        ),
{
    assert forall|l: int|
        0 < l <= path.len() implies (#[trigger] m.descend(0, path.take(l))) is Some
        && m.nodes@[m.descend(0, path.take(l)).unwrap()].decider is None by {
        m.lemma_has_node_prefix(path, l);
        assert(m.decider_at(path.take(l)) is None);
    }
    lemma_partial_rel_literal_from(m, 0, path, acc, r);
}

/// The walk of `lemma_partial_literal_path`, anchored at any node: a
/// caller who has walked partway in composes this with the partial walk
/// relation at the node reached.
pub proof fn lemma_partial_rel_literal_from<
    A,
    D,
    F: Copy,
    DF: Copy + Fn(Vec<String>) -> (Decision<D>, Vec<A>),
>(
    m: Mapping<A, D, F, DF>,
    i: int,
    path: Seq<Seq<char>>,
    acc: Seq<A>,
    r: Result<(MapOrDescView, Seq<A>), LookErrorView<D>>,
)
    requires
        m.descend(i, path) is Some,
        forall|l: int|
            0 < l <= path.len() ==> (#[trigger] m.descend(i, path.take(l))) is Some
                && m.nodes@[m.descend(i, path.take(l)).unwrap()].decider is None,
        m.partial_rel(i, path, acc, r),
    ensures
        r == Ok::<(MapOrDescView, Seq<A>), LookErrorView<D>>(
            (MapOrDescView::Mapping(m.descend(i, path).unwrap()), acc),
        ),
    decreases path.len(),
{
    if path.len() == 0 {
    } else {
        match m.child_of(i, path[0]) {
            Some(c) => {
                assert(path.take(1)[0] == path[0]);
                assert(path.take(1).skip(1) =~= Seq::<Seq<char>>::empty());
                assert(m.descend(c, path.take(1).skip(1)) == Some(c));
                assert(m.descend(i, path.take(1)) == Some(c));
                assert(m.nodes@[c].decider is None);
                assert(m.descend(c, path.skip(1)) == m.descend(i, path));
                assert forall|l: int|
                    0 < l <= path.skip(1).len() implies (#[trigger] m.descend(
                    c,
                    path.skip(1).take(l),
                )) is Some && m.nodes@[m.descend(c, path.skip(1).take(l)).unwrap()].decider
                    is None by {
                    assert(path.take(l + 1)[0] == path[0]);
                    assert(path.take(l + 1).skip(1) =~= path.skip(1).take(l));
                    assert(m.descend(i, path.take(l + 1)) == m.descend(c, path.skip(1).take(l)));
                    assert((m.descend(i, path.take(l + 1))) is Some && m.nodes@[m.descend(
                        i,
                        path.take(l + 1),
                    ).unwrap()].decider is None);
                }
                lemma_partial_rel_literal_from(m, c, path.skip(1), acc, r);
            },
            None => {
                assert(m.descend(i, path) is None);
                assert(false);
            },
        }
    }
}

/// The next segment of a longer registered path is among a node's direct
/// children.
///
/// If the trie has a node at `path.push(s)`, then the node at `path` has a
/// child edge named `s`, so `s` shows up in that node's direct keys.
pub proof fn lemma_next_segment_is_child<A, D, F, DF>(
    m: Mapping<A, D, F, DF>,
    path: Seq<Seq<char>>,
    s: Seq<char>,
)
    requires
        m.has_node(path.push(s)),
    ensures
        m.child_names(path).contains(s),
        m.node_at(path) is Some,
        child_in(m.nodes@[m.node_at(path).unwrap()].children@, s) is Some,
        exists|jx: int|
            0 <= jx < m.nodes@[m.node_at(path).unwrap()].children@.len() && (
            #[trigger] m.nodes@[m.node_at(path).unwrap()].children@[jx]).0@ == s,
{
    m.lemma_descend_last(0, path.push(s));
    assert(path.push(s).drop_last() =~= path);
    assert(path.push(s).last() == s);
    let t = m.node_at(path).unwrap();
    lemma_child_in_mem(m.nodes@[t].children@, s);
    let jw = choose|jc: int|
        0 <= jc < m.nodes@[t].children@.len() && (#[trigger] m.nodes@[t].children@[jc]).0@ == s
            && m.nodes@[t].children@[jc].1 as int == child_in(m.nodes@[t].children@, s).unwrap();
    assert((m.nodes@[t].children@[jw]).0@ == s);
}

/// A trailing segment with a decider makes the partial lookup answer with
/// the decider's description.
///
/// At any node of the walk, when the one remaining token names an edge
/// carrying a decider, the partial walk returns the decider's description
/// — a hint of the argument shape expected next — with the collected
/// values untouched: the decider is never run, so it neither denies nor
/// appends anything.
pub proof fn lemma_partial_decider_hint<
    A,
    D,
    F: Copy,
    DF: Copy + Fn(Vec<String>) -> (Decision<D>, Vec<A>),
>(
    m: Mapping<A, D, F, DF>,
    i: int,
    dec: Decider<DF>,
    tokens: Seq<Seq<char>>,
    acc: Seq<A>,
    r: Result<(MapOrDescView, Seq<A>), LookErrorView<D>>,
)
    requires
        tokens.len() == 1,
        ({
            let c = m.child_of(i, tokens[0]);
            c is Some && m.nodes@[c.unwrap()].decider == Some(dec)
        }),
        m.partial_rel(i, tokens, acc, r),
    ensures
        r == Ok::<(MapOrDescView, Seq<A>), LookErrorView<D>>(
            (MapOrDescView::Desc(dec.description@), acc),
        ),
{
    match m.child_of(i, tokens[0]) {
        Some(c) => {
            assert(m.nodes@[c].decider == Some(dec));
        },
        None => {
            assert(false);
        },
    }
}

} // verus!
