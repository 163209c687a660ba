//! The command trie itself: registration, lookup, and partial lookup.
//!
//! A [`Mapping`] stores its nodes in an arena: node 0 is the root, and a
//! node's children are named edges holding the index of the child node.
//! Child indices always point further into the arena, every node but the
//! root is the target of exactly one edge, and sibling names are unique, so
//! the arena always spells a tree.
//!
//! The trie is generic over the values a decider produces (`A`), the reason
//! a decider gives for denying input (`D`), the finalizer payload stored at
//! complete commands (`F`), and the decider function type itself (`DF`).
//! The trie never runs a finalizer; it only hands it back.

use core::marker::PhantomData;
use vstd::prelude::*;

use crate::decision::Decider;
use crate::decision::Decision;
use crate::decision::LookError;
use crate::decision::LookErrorView;
use crate::decision::RegError;

verus! {

/// A vector of accepted values.  Argument buffers are usually short, so a
/// caller may wish for an inline small-vector here one day; the name keeps
/// that door open while a plain growable vector does the work.
pub type SVec<A> = Vec<A>;

/// A command specification: the path of segments, each with the optional
/// decider of its edge, and the finalizer of the complete command.
pub type Spec<F, DF> = (Vec<(String, Option<Decider<DF>>)>, F);

/// What a successful lookup resolves to: the command's finalizer and the
/// values its deciders produced.
pub type FinWithArgs<A, F> = (F, Vec<A>);

/// The shape of a plain finalizer function: it receives the caller's
/// context and the accepted values, and answers with a reply or an error
/// text.
pub type Finalizer<A, C> = fn(&mut C, &[A]) -> Result<String, String>;

/// One node of the trie: named edges to children, the decider attached to
/// the edge that leads *into* this node, and the finalizer if a complete
/// command ends here.
pub struct Node<F, DF> {
    pub children: Vec<(String, usize)>,
    pub decider: Option<Decider<DF>>,
    pub finalizer: Option<F>,
}

/// The command trie.  See the module documentation for the reading of the
/// generic parameters.
pub struct Mapping<A, D, F, DF> {
    pub nodes: Vec<Node<F, DF>>,
    pub marker: PhantomData<(A, D)>,
}

/// The index of the child that `name` selects among `children`: the edge
/// payload of the first (and, in a well-formed node, only) entry whose
/// name reads as `name`.
pub open spec fn child_in(children: Seq<(String, usize)>, name: Seq<char>) -> Option<int>
    decreases children.len(),
{
    if children.len() == 0 {
        None
    } else if children[0].0@ == name {
        Some(children[0].1 as int)
    } else {
        child_in(children.skip(1), name)
    }
}

impl<A, D, F, DF> Mapping<A, D, F, DF> {
    /// The node index that `name` selects among the children of node `i`.
    pub open spec fn child_of(&self, i: int, name: Seq<char>) -> Option<int> {
        child_in(self.nodes@[i].children@, name)
    }

    /// The node reached from node `i` by following the literal segment
    /// names of `path`, if every edge exists.
    pub open spec fn descend(&self, i: int, path: Seq<Seq<char>>) -> Option<int>
        decreases path.len(),
    {
        if path.len() == 0 {
            Some(i)
        } else {
            match self.child_of(i, path[0]) {
                Some(c) => self.descend(c, path.skip(1)),
                None => None,
            }
        }
    }

    /// The node reached from the root by following `path`.
    pub open spec fn node_at(&self, path: Seq<Seq<char>>) -> Option<int> {
        self.descend(0, path)
    }

    /// Whether the trie has a node at `path`.
    pub open spec fn has_node(&self, path: Seq<Seq<char>>) -> bool {
        self.node_at(path) is Some
    }

    /// The finalizer of the node at `path`: `None` if there is no such
    /// node, or no complete command ends there.
    pub open spec fn finalizer_at(&self, path: Seq<Seq<char>>) -> Option<F> {
        match self.node_at(path) {
            Some(i) => self.nodes@[i].finalizer,
            None => None,
        }
    }

    /// The decider on the edge into the node at `path`: `None` if there is
    /// no such node, or the edge carries no decider.
    pub open spec fn decider_at(&self, path: Seq<Seq<char>>) -> Option<Decider<DF>> {
        match self.node_at(path) {
            Some(i) => self.nodes@[i].decider,
            None => None,
        }
    }

    /// The segment names that may follow `path`.
    pub open spec fn child_names(&self, path: Seq<Seq<char>>) -> Set<Seq<char>> {
        Set::new(|s: Seq<char>| self.has_node(path.push(s)))
    }

    /// Sibling names of node `i` are distinct, and its child indices point
    /// strictly further into the arena.
    pub open spec fn node_ok(&self, i: int) -> bool {
        let n = self.nodes@[i];
        &&& forall|j: int, k: int|
            0 <= j < k < n.children@.len() ==> (#[trigger] n.children@[j]).0@ != (
            #[trigger] n.children@[k]).0@
        &&& forall|j: int| 0 <= j < n.children@.len() ==> i < (#[trigger] n.children@[j]).1 < self.nodes@.len()
    }

    /// Every node but the root is the target of at most one edge, and no
    /// edge targets the root.
    pub open spec fn edges_ok(&self) -> bool {
        &&& forall|i1: int, j1: int, i2: int, j2: int|
            0 <= i1 < self.nodes@.len() && 0 <= j1 < self.nodes@[i1].children@.len() && 0 <= i2
                < self.nodes@.len() && 0 <= j2 < self.nodes@[i2].children@.len() && (i1 != i2 || j1
                != j2) ==> #[trigger] self.nodes@[i1].children@[j1].1 != #[trigger] self.nodes@[i2].children@[j2].1
        &&& forall|i: int, j: int|
            0 <= i < self.nodes@.len() && 0 <= j < self.nodes@[i].children@.len() ==> (
            #[trigger] self.nodes@[i].children@[j]).1 != 0
    }

    /// The arena spells a tree rooted at node 0.
    pub open spec fn tree_ok(&self) -> bool {
        &&& 1 <= self.nodes@.len()
        &&& forall|i: int| 0 <= i < self.nodes@.len() ==> self.node_ok(i)
        &&& self.edges_ok()
    }

    /// An empty trie: a lone root with no children, no decider and no
    /// finalizer.
    pub open spec fn is_empty_trie(&self) -> bool {
        &&& self.nodes@.len() == 1
        &&& self.nodes@[0].children@.len() == 0
        &&& self.nodes@[0].decider is None
        &&& self.nodes@[0].finalizer is None
    }

    /// The segment names of a registration path.
    pub open spec fn names_of(path: Seq<(String, Option<Decider<DF>>)>) -> Seq<Seq<char>> {
        path.map_values(|p: (String, Option<Decider<DF>>)| p.0@)
    }

    /// What registering `path` from node `i` returns.
    ///
    /// Walking the existing trie along the path: supplying a decider for an
    /// edge that already exists is refused, and so is a finalizer for a
    /// node that already has one; a path that leaves the existing trie is
    /// always accepted, since it only creates fresh nodes.
    pub open spec fn spec_register_result(
        &self,
        i: int,
        path: Seq<(String, Option<Decider<DF>>)>,
    ) -> Result<(), RegError>
        decreases path.len(),
    {
        if path.len() == 0 {
            if self.nodes@[i].finalizer is Some {
                Err(RegError::FinalizerAlreadyExists)
            } else {
                Ok(())
            }
        } else {
            match self.child_of(i, path[0].0@) {
                Some(c) => if path[0].1 is Some {
                    Err(RegError::DeciderAlreadyExists)
                } else {
                    self.spec_register_result(c, path.skip(1))
                },
                None => Ok(()),
            }
        }
    }

    /// How a successful registration of `path` with finalizer `fin`
    /// transforms the trie, observed path by path: exactly the nodes along
    /// `path` spring into being where missing, the finalizer appears at the
    /// end of `path` and nowhere else, the supplied deciders sit on exactly
    /// the freshly created edges, and every other observation is unchanged.
    pub open spec fn register_effect(
        pre: Self,
        post: Self,
        path: Seq<(String, Option<Decider<DF>>)>,
        fin: F,
    ) -> bool {
        let names = Self::names_of(path);
        &&& forall|q: Seq<Seq<char>>|
            #[trigger] post.has_node(q) <==> (pre.has_node(q) || is_prefix_of(q, names))
        &&& forall|q: Seq<Seq<char>>|
            #[trigger] post.finalizer_at(q) == (if q == names {
                Some(fin)
            } else {
                pre.finalizer_at(q)
            })
        &&& forall|l: int|
            0 < l <= names.len() ==> #[trigger] post.decider_at(names.take(l)) == (
            if pre.has_node(names.take(l)) {
                pre.decider_at(names.take(l))
            } else {
                path[l - 1].1
            })
        &&& forall|q: Seq<Seq<char>>|
            !(is_prefix_of(q, names) && q.len() > 0) ==> #[trigger] post.decider_at(q)
                == pre.decider_at(q)
    }

    /// Walks the longest prefix of `path` that already exists in the trie.
    ///
    /// Returns the node reached and the number of segments consumed, or the
    /// registration error that walking the existing region surfaces.
    fn walk_prefix(&self, path: &Vec<(String, Option<Decider<DF>>)>) -> (r: Result<
        (usize, usize),
        RegError,
    >)
        requires
            self.tree_ok(),
        ensures
            match r {
                Err(e) => e == RegError::DeciderAlreadyExists && self.spec_register_result(
                    0,
                    path@,
                ) == Err::<(), RegError>(RegError::DeciderAlreadyExists),
                Ok(p) => {
                    &&& p.1 <= path@.len()
                    &&& p.0 < self.nodes@.len()
                    &&& self.descend(0, Self::names_of(path@).take(p.1 as int)) == Some(p.0 as int)
                    &&& self.spec_register_result(0, path@) == self.spec_register_result(
                        p.0 as int,
                        path@.skip(p.1 as int),
                    )
                    &&& p.1 < path@.len() ==> self.child_of(p.0 as int, path@[p.1 as int].0@) is None
                },
            },
    {
        let ghost pview = path@;
        let ghost names = Self::names_of(pview);
        let mut cur: usize = 0;
        let mut j: usize = 0;
        proof {
            assert(names.take(0) =~= Seq::<Seq<char>>::empty());
            assert(pview.skip(0) =~= pview);
        }
        while j < path.len()
            invariant
                self.tree_ok(),
                j <= pview.len(),
                path@ == pview,
                names == Self::names_of(pview),
                cur < self.nodes@.len(),
                self.descend(0, names.take(j as int)) == Some(cur as int),
                self.spec_register_result(0, pview) == self.spec_register_result(
                    cur as int,
                    pview.skip(j as int),
                ),
            decreases pview.len() - j,
        {
            proof {
                assert(pview.skip(j as int)[0] == pview[j as int]);
                assert(names[j as int] == pview[j as int].0@);
            }
            match self.find_child(cur, &path[j].0) {
                Some(c) => {
                    if path[j].1.is_some() {
                        proof {
                            assert(self.spec_register_result(cur as int, pview.skip(j as int))
                                == Err::<(), RegError>(RegError::DeciderAlreadyExists));
                        }
                        return Err(RegError::DeciderAlreadyExists);
                    }
                    proof {
                        assert(names.take(j as int + 1).drop_last() =~= names.take(j as int));
                        assert(names.take(j as int + 1).last() == names[j as int]);
                        self.lemma_descend_last(0, names.take(j as int + 1));
                        assert(pview.skip(j as int).skip(1) =~= pview.skip(j as int + 1));
                        assert(self.spec_register_result(cur as int, pview.skip(j as int))
                            == self.spec_register_result(c as int, pview.skip(j as int + 1)));
                    }
                    cur = c;
                    j += 1;
                },
                None => {
                    return Ok((cur, j));
                },
            }
        }
        Ok((cur, j))
    }

    /// The index that `name` selects among the children of node `i`, as
    /// executable code.
    fn find_child(&self, i: usize, name: &String) -> (r: Option<usize>)
        requires
            self.tree_ok(),
            i < self.nodes@.len(),
        ensures
            match r {
                Some(c) => self.child_of(i as int, name@) == Some(c as int) && i < c
                    < self.nodes@.len(),
                None => self.child_of(i as int, name@) is None,
            },
    {
        let children = &self.nodes[i].children;
        let ghost all = children@;
        proof {
            assert(all.skip(0) =~= all);
        }
        let mut j: usize = 0;
        while j < children.len()
            invariant
                j <= children@.len(),
                children@ == all,
                children == &self.nodes@[i as int].children,
                self.tree_ok(),
                i < self.nodes@.len(),
                child_in(all, name@) == child_in(all.skip(j as int), name@),
            decreases children@.len() - j,
        {
            if children[j].0 == *name {
                proof {
                    assert(all.skip(j as int)[0] == all[j as int]);
                    assert(child_in(all.skip(j as int), name@) == Some(all[j as int].1 as int));
                    assert(self.node_ok(i as int));
                    assert(i < (self.nodes@[i as int].children@[j as int]).1 < self.nodes@.len());
                }
                return Some(children[j].1);
            }
            proof {
                assert(all.skip(j as int).skip(1) =~= all.skip(j as int + 1));
                assert(all.skip(j as int)[0] == all[j as int]);
            }
            j += 1;
        }
        proof {
            assert(all.skip(j as int) =~= Seq::<(String, usize)>::empty());
        }
        None
    }

    /// The immediate children of node `node`: each child's segment name,
    /// the description of the decider on its edge if it has one, and
    /// whether a complete command ends at it.
    ///
    /// Callers must not read anything into the order of the entries.
    pub fn get_direct_keys(&self, node: usize) -> (r: Vec<(String, Option<&'static str>, bool)>)
        requires
            self.tree_ok(),
            node < self.nodes@.len(),
        ensures
            r@.len() == self.nodes@[node as int].children@.len(),
            forall|j: int|
                0 <= j < r@.len() ==> {
                    let edge = self.nodes@[node as int].children@[j];
                    let child = self.nodes@[edge.1 as int];
                    &&& (#[trigger] r@[j]).0@ == edge.0@
                    &&& match child.decider {
                        Some(d) => r@[j].1 == Some(d.description),
                        None => r@[j].1 is None,
                    }
                    &&& r@[j].2 == (child.finalizer is Some)
                },
    {
        let children = &self.nodes[node].children;
        let mut r: Vec<(String, Option<&'static str>, bool)> = Vec::new();
        let mut j: usize = 0;
        while j < children.len()
            invariant
                j <= children@.len(),
                children == &self.nodes@[node as int].children,
                self.tree_ok(),
                node < self.nodes@.len(),
                r@.len() == j,
                forall|k: int|
                    0 <= k < j ==> {
                        let edge = self.nodes@[node as int].children@[k];
                        let child = self.nodes@[edge.1 as int];
                        &&& (#[trigger] r@[k]).0@ == edge.0@
                        &&& match child.decider {
                            Some(d) => r@[k].1 == Some(d.description),
                            None => r@[k].1 is None,
                        }
                        &&& r@[k].2 == (child.finalizer is Some)
                    },
            decreases children@.len() - j,
        {
            proof {
                assert(self.node_ok(node as int));
                assert((self.nodes@[node as int].children@[j as int]).1 < self.nodes@.len());
            }
            let name = children[j].0.clone();
            let c = children[j].1;
            let desc: Option<&'static str> = match &self.nodes[c].decider {
                Some(d) => Some(d.description),
                None => None,
            };
            let has_fin = self.nodes[c].finalizer.is_some();
            r.push((name, desc, has_fin));
            j += 1;
        }
        r
    }
}

/// A found child is recorded in some entry of the children list.
pub proof fn lemma_child_in_mem(children: Seq<(String, usize)>, name: Seq<char>)
    requires
        child_in(children, name) is Some,
    ensures
        exists|j: int|
            0 <= j < children.len() && (#[trigger] children[j]).0@ == name && children[j].1 as int
                == child_in(children, name).unwrap(),
    decreases children.len(),
{
    if children.len() == 0 {
    } else if children[0].0@ == name {
        assert(children[0].0@ == name && children[0].1 as int == child_in(children, name).unwrap());
    } else {
        lemma_child_in_mem(children.skip(1), name);
        let j0 = choose|j: int|
            0 <= j < children.skip(1).len() && (#[trigger] children.skip(1)[j]).0@ == name
                && children.skip(1)[j].1 as int == child_in(children.skip(1), name).unwrap();
        assert(children[j0 + 1] == children.skip(1)[j0]);
    }
}

/// Appending an edge leaves earlier matches alone and catches exactly the
/// new name otherwise.
proof fn lemma_child_in_push(children: Seq<(String, usize)>, e: (String, usize), name: Seq<char>)
    ensures
        child_in(children.push(e), name) == (match child_in(children, name) {
            Some(c) => Some(c),
            None => if e.0@ == name {
                Some(e.1 as int)
            } else {
                None
            },
        }),
    decreases children.len(),
{
    if children.len() == 0 {
        assert(children.push(e)[0] == e);
        assert(children.push(e).skip(1) =~= Seq::<(String, usize)>::empty());
        assert(child_in(children, name) is None);
        if e.0@ == name {
            assert(child_in(children.push(e), name) == Some(e.1 as int));
        } else {
            assert(child_in(children.push(e), name) == child_in(
                children.push(e).skip(1),
                name,
            ));
            assert(child_in(children.push(e), name) is None);
        }
    } else {
        assert(children.push(e)[0] == children[0]);
        assert(children.push(e).skip(1) =~= children.skip(1).push(e));
        lemma_child_in_push(children.skip(1), e, name);
        if children[0].0@ == name {
            assert(child_in(children.push(e), name) == Some(children[0].1 as int));
            assert(child_in(children, name) == Some(children[0].1 as int));
        } else {
            assert(child_in(children.push(e), name) == child_in(
                children.skip(1).push(e),
                name,
            ));
            assert(child_in(children, name) == child_in(children.skip(1), name));
        }
    }
}

/// The character sequences of a sequence of tokens.
pub open spec fn token_views(tokens: Seq<String>) -> Seq<Seq<char>> {
    tokens.map_values(|t: String| t@)
}

/// `q` is a (not necessarily proper) prefix of the path `p`.
pub open spec fn is_prefix_of(q: Seq<Seq<char>>, p: Seq<Seq<char>>) -> bool {
    q.len() <= p.len() && q == p.take(q.len() as int)
}

/// Clones the tokens of `input` from position `from` on into a fresh
/// vector.
fn tail_tokens(input: &[String], from: usize) -> (r: Vec<String>)
    requires
        from <= input@.len(),
    ensures
        token_views(r@) == token_views(input@).skip(from as int),
{
    let mut r: Vec<String> = Vec::new();
    let mut j: usize = from;
    while j < input.len()
        invariant
            from <= j <= input@.len(),
            r@.len() == j - from,
            forall|k: int| 0 <= k < r@.len() ==> r@[k] == input@[from + k],
        decreases input@.len() - j,
    {
        r.push(input[j].clone());
        j += 1;
    }
    proof {
        assert(token_views(r@) =~= token_views(input@).skip(from as int));
    }
    r
}

impl<A, D, F: Copy, DF: Copy + Fn(Vec<String>) -> (Decision<D>, Vec<A>)> Mapping<A, D, F, DF> {
    /// A decider may be called on any token sequence.
    pub open spec fn decider_is_total(df: DF) -> bool {
        forall|args: Vec<String>| #[trigger] call_requires(df, (args,))
    }

    /// Every decider stored in the trie is total.
    pub open spec fn deciders_ok(&self) -> bool {
        forall|i: int|
            0 <= i < self.nodes@.len() && (#[trigger] self.nodes@[i]).decider is Some
                ==> Self::decider_is_total(self.nodes@[i].decider.unwrap().decider)
    }

    /// Well-formedness: the arena spells a tree and its deciders are total.
    pub open spec fn wf(&self) -> bool {
        &&& self.tree_ok()
        &&& self.deciders_ok()
    }

    /// `r` is a possible outcome of resolving `tokens` from node `i` with
    /// the values in `acc` already collected.
    ///
    /// With no token left, the walk succeeds exactly if a finalizer is
    /// installed here.  Otherwise the first token must name a child; the
    /// decider on that child's edge, if any, is run on the tokens after the
    /// segment and may deny, consume more tokens than remain (an overrun),
    /// or accept `k` of them, in which case the walk continues past the
    /// consumed tokens with the decider's values appended.  Deciders may
    /// behave differently from call to call, so this is a relation: it
    /// holds for every outcome the deciders' own contracts allow.
    pub open spec fn lookup_rel(
        &self,
        i: int,
        tokens: Seq<Seq<char>>,
        acc: Seq<A>,
        r: Result<(F, Seq<A>), LookErrorView<D>>,
    ) -> bool
        decreases tokens.len(),
    {
        if tokens.len() == 0 {
            match self.nodes@[i].finalizer {
                Some(f) => r == Ok::<(F, Seq<A>), LookErrorView<D>>((f, acc)),
                None => r == Err::<(F, Seq<A>), LookErrorView<D>>(
                    LookErrorView::FinalizerDoesNotExist,
                ),
            }
        } else {
            match self.child_of(i, tokens[0]) {
                None => r == Err::<(F, Seq<A>), LookErrorView<D>>(
                    LookErrorView::UnknownMapping(tokens[0]),
                ),
                Some(c) => match self.nodes@[c].decider {
                    None => self.lookup_rel(c, tokens.skip(1), acc, r),
                    Some(dec) => exists|args: Vec<String>, ret: (Decision<D>, Vec<A>)|
                        {
                            &&& token_views(args@) == tokens.skip(1)
                            &&& #[trigger] call_ensures(dec.decider, (args,), ret)
                            &&& match ret.0 {
                                Decision::Accept(k) => if k < tokens.len() {
                                    self.lookup_rel(c, tokens.skip(1 + k as int), acc + ret.1@, r)
                                } else {
                                    r == Err::<(F, Seq<A>), LookErrorView<D>>(
                                        LookErrorView::DeciderAdvancedTooFar,
                                    )
                                },
                                Decision::Deny(d) => r == Err::<(F, Seq<A>), LookErrorView<D>>(
                                    LookErrorView::DeciderDenied(dec.description@, d),
                                ),
                            }
                        },
                },
            }
        }
    }

    /// Resolves `tokens` from node `i`, appending decider values to
    /// `output`; returns the finalizer on success.
    fn lookup_from(&self, i: usize, input: &[String], pos: usize, output: &mut Vec<A>) -> (r:
        Result<F, LookError<D>>)
        requires
            self.wf(),
            i < self.nodes@.len(),
            pos <= input@.len(),
        ensures
            match r {
                Ok(f) => self.lookup_rel(
                    i as int,
                    token_views(input@).skip(pos as int),
                    old(output)@,
                    Ok((f, final(output)@)),
                ),
                Err(e) => self.lookup_rel(
                    i as int,
                    token_views(input@).skip(pos as int),
                    old(output)@,
                    Err(e@),
                ),
            },
        decreases input@.len() - pos,
    {
        let ghost tokens = token_views(input@).skip(pos as int);
        if pos == input.len() {
            match &self.nodes[i].finalizer {
                Some(f) => Ok(*f),
                None => Err(LookError::FinalizerDoesNotExist),
            }
        } else {
            proof {
                assert(tokens[0] == input@[pos as int]@);
            }
            match self.find_child(i, &input[pos]) {
                None => Err(LookError::UnknownMapping(input[pos].clone())),
                Some(c) => {
                    match &self.nodes[c].decider {
                        Some(dec) => {
                            let ghost gdec = self.nodes@[c as int].decider.unwrap();
                            let df = dec.decider;
                            let args = tail_tokens(input, pos + 1);
                            let ghost gargs = args;
                            proof {
                                assert(df == gdec.decider);
                                assert(self.deciders_ok());
                                assert(Self::decider_is_total(gdec.decider));
                                assert(tokens.skip(1) =~= token_views(input@).skip(
                                    pos as int + 1,
                                ));
                            }
                            let ret = df(args);
                            let ghost gret = ret;
                            let (decision, mut produced) = ret;
                            match decision {
                                Decision::Accept(k) => {
                                    if k < input.len() - pos {
                                        output.append(&mut produced);
                                        let res = self.lookup_from(c, input, pos + 1 + k, output);
                                        proof {
                                            assert(tokens.skip(1 + k as int) =~= token_views(
                                                input@,
                                            ).skip(pos as int + 1 + k as int));
                                            match &res {
                                                Ok(f) => {
                                                    assert(self.lookup_rel(
                                                        c as int,
                                                        tokens.skip(1 + k as int),
                                                        old(output)@ + gret.1@,
                                                        Ok((*f, output@)),
                                                    ));
                                                    assert(self.lookup_rel(
                                                        i as int,
                                                        tokens,
                                                        old(output)@,
                                                        Ok((*f, output@)),
                                                    ));
                                                },
                                                Err(e) => {
                                                    assert(self.lookup_rel(
                                                        c as int,
                                                        tokens.skip(1 + k as int),
                                                        old(output)@ + gret.1@,
                                                        Err(e@),
                                                    ));
                                                    assert(self.lookup_rel(
                                                        i as int,
                                                        tokens,
                                                        old(output)@,
                                                        Err(e@),
                                                    ));
                                                },
                                            }
                                        }
                                        res
                                    } else {
                                        proof {
                                            assert(self.lookup_rel(
                                                i as int,
                                                tokens,
                                                old(output)@,
                                                Err(LookErrorView::DeciderAdvancedTooFar),
                                            ));
                                        }
                                        Err(LookError::DeciderAdvancedTooFar)
                                    }
                                },
                                Decision::Deny(d) => {
                                    let desc: String = dec.description.to_owned();
                                    proof {
                                        assert(self.lookup_rel(
                                            i as int,
                                            tokens,
                                            old(output)@,
                                            Err(LookErrorView::DeciderDenied(gdec.description@, d)),
                                        ));
                                    }
                                    Err(LookError::DeciderDenied(desc, d))
                                },
                            }
                        },
                        None => {
                            let res = self.lookup_from(c, input, pos + 1, output);
                            proof {
                                assert(tokens.skip(1) =~= token_views(input@).skip(pos as int + 1));
                            }
                            res
                        },
                    }
                },
            }
        }
    }

    /// Resolves a complete command: walks the trie along `input`, running
    /// the deciders on the way, and returns the finalizer of the command
    /// together with every value the deciders produced, in path order.
    pub fn lookup(&self, input: &[String]) -> (r: Result<(F, Vec<A>), LookError<D>>)
        requires
            self.wf(),
        ensures
            match r {
                Ok(p) => self.lookup_rel(0, token_views(input@), Seq::empty(), Ok((p.0, p.1@))),
                Err(e) => self.lookup_rel(0, token_views(input@), Seq::empty(), Err(e@)),
            },
    {
        let mut output: Vec<A> = Vec::new();
        proof {
            assert(token_views(input@).skip(0) =~= token_views(input@));
        }
        match self.lookup_from(0, input, 0, &mut output) {
            Ok(f) => Ok((f, output)),
            Err(e) => Err(e),
        }
    }

    /// `r` is a possible outcome of a partial walk of `tokens` from node
    /// `i` with the values in `acc` already collected.
    ///
    /// The walk is the same as in [`Self::lookup_rel`], but tolerant of
    /// running out of input: with no token left it resolves to the node
    /// reached so far, and when the last token names an edge with a decider
    /// it resolves to that decider's description instead of running it on
    /// nothing.  A resolution carries the collected values with it, so at
    /// both resolving stops the output buffer holds exactly what the
    /// deciders passed on the way produced — at the description stop in
    /// particular, the trailing decider has added nothing.
    pub open spec fn partial_rel(
        &self,
        i: int,
        tokens: Seq<Seq<char>>,
        acc: Seq<A>,
        r: Result<(MapOrDescView, Seq<A>), LookErrorView<D>>,
    ) -> bool
        decreases tokens.len(),
    {
        if tokens.len() == 0 {
            r == Ok::<(MapOrDescView, Seq<A>), LookErrorView<D>>((MapOrDescView::Mapping(i), acc))
        } else {
            match self.child_of(i, tokens[0]) {
                None => r == Err::<(MapOrDescView, Seq<A>), LookErrorView<D>>(
                    LookErrorView::UnknownMapping(tokens[0]),
                ),
                Some(c) => match self.nodes@[c].decider {
                    None => self.partial_rel(c, tokens.skip(1), acc, r),
                    Some(dec) => if tokens.len() == 1 {
                        r == Ok::<(MapOrDescView, Seq<A>), LookErrorView<D>>(
                            (MapOrDescView::Desc(dec.description@), acc),
                        )
                    } else {
                        exists|args: Vec<String>, ret: (Decision<D>, Vec<A>)|
                            {
                                &&& token_views(args@) == tokens.skip(1)
                                &&& #[trigger] call_ensures(dec.decider, (args,), ret)
                                &&& match ret.0 {
                                    Decision::Accept(k) => if k < tokens.len() {
                                        self.partial_rel(
                                            c,
                                            tokens.skip(1 + k as int),
                                            acc + ret.1@,
                                            r,
                                        )
                                    } else {
                                        r == Err::<(MapOrDescView, Seq<A>), LookErrorView<D>>(
                                            LookErrorView::DeciderAdvancedTooFar,
                                        )
                                    },
                                    Decision::Deny(d) => r == Err::<
                                        (MapOrDescView, Seq<A>),
                                        LookErrorView<D>,
                                    >(LookErrorView::DeciderDenied(dec.description@, d)),
                                }
                            }
                    },
                },
            }
        }
    }

    /// Partially walks `tokens` from node `i` for [`Self::partial_lookup`].
    fn partial_from(&self, i: usize, input: &[String], pos: usize, output: &mut Vec<A>) -> (r:
        Result<MapOrDesc, LookError<D>>)
        requires
            self.wf(),
            i < self.nodes@.len(),
            pos <= input@.len(),
        ensures
            match r {
                Ok(m) => self.partial_rel(
                    i as int,
                    token_views(input@).skip(pos as int),
                    old(output)@,
                    Ok((m@, final(output)@)),
                ) && (match m {
                    MapOrDesc::Mapping(t) => t < self.nodes@.len(),
                    MapOrDesc::Desc(_) => true,
                }),
                Err(e) => self.partial_rel(
                    i as int,
                    token_views(input@).skip(pos as int),
                    old(output)@,
                    Err(e@),
                ),
            },
        decreases input@.len() - pos,
    {
        let ghost tokens = token_views(input@).skip(pos as int);
        if pos == input.len() {
            Ok(MapOrDesc::Mapping(i))
        } else {
            proof {
                assert(tokens[0] == input@[pos as int]@);
            }
            match self.find_child(i, &input[pos]) {
                None => Err(LookError::UnknownMapping(input[pos].clone())),
                Some(c) => {
                    match &self.nodes[c].decider {
                        Some(dec) => {
                            let ghost gdec = self.nodes@[c as int].decider.unwrap();
                            if pos + 1 == input.len() {
                                return Ok(MapOrDesc::Desc(dec.description));
                            }
                            let df = dec.decider;
                            let args = tail_tokens(input, pos + 1);
                            let ghost gargs = args;
                            proof {
                                assert(df == gdec.decider);
                                assert(self.deciders_ok());
                                assert(Self::decider_is_total(gdec.decider));
                                assert(tokens.skip(1) =~= token_views(input@).skip(
                                    pos as int + 1,
                                ));
                            }
                            let ret = df(args);
                            let ghost gret = ret;
                            let (decision, mut produced) = ret;
                            match decision {
                                Decision::Accept(k) => {
                                    if k < input.len() - pos {
                                        output.append(&mut produced);
                                        let res = self.partial_from(c, input, pos + 1 + k, output);
                                        proof {
                                            assert(tokens.skip(1 + k as int) =~= token_views(
                                                input@,
                                            ).skip(pos as int + 1 + k as int));
                                            match &res {
                                                Ok(m) => {
                                                    assert(self.partial_rel(
                                                        c as int,
                                                        tokens.skip(1 + k as int),
                                                        old(output)@ + gret.1@,
                                                        Ok((m@, output@)),
                                                    ));
                                                    assert(self.partial_rel(
                                                        i as int,
                                                        tokens,
                                                        old(output)@,
                                                        Ok((m@, output@)),
                                                    ));
                                                },
                                                Err(e) => {
                                                    assert(self.partial_rel(
                                                        c as int,
                                                        tokens.skip(1 + k as int),
                                                        old(output)@ + gret.1@,
                                                        Err(e@),
                                                    ));
                                                    assert(self.partial_rel(
                                                        i as int,
                                                        tokens,
                                                        old(output)@,
                                                        Err(e@),
                                                    ));
                                                },
                                            }
                                        }
                                        res
                                    } else {
                                        proof {
                                            assert(self.partial_rel(
                                                i as int,
                                                tokens,
                                                old(output)@,
                                                Err(LookErrorView::DeciderAdvancedTooFar),
                                            ));
                                        }
                                        Err(LookError::DeciderAdvancedTooFar)
                                    }
                                },
                                Decision::Deny(d) => {
                                    let desc: String = dec.description.to_owned();
                                    proof {
                                        assert(self.partial_rel(
                                            i as int,
                                            tokens,
                                            old(output)@,
                                            Err(LookErrorView::DeciderDenied(gdec.description@, d)),
                                        ));
                                    }
                                    Err(LookError::DeciderDenied(desc, d))
                                },
                            }
                        },
                        None => {
                            let res = self.partial_from(c, input, pos + 1, output);
                            proof {
                                assert(tokens.skip(1) =~= token_views(input@).skip(pos as int + 1));
                            }
                            res
                        },
                    }
                },
            }
        }
    }

    /// Partially resolves a command for autocompletion: returns either the
    /// node whose direct children are the legal next segments (hand its
    /// index to [`Self::get_direct_keys`]), or the description of the
    /// decider that expects the next token.  Decider values produced on the
    /// way are appended to `output`.
    pub fn partial_lookup(&self, input: &[String], output: &mut Vec<A>) -> (r: Result<
        MapOrDesc,
        LookError<D>,
    >)
        requires
            self.wf(),
        ensures
            match r {
                Ok(m) => self.partial_rel(
                    0,
                    token_views(input@),
                    old(output)@,
                    Ok((m@, final(output)@)),
                ) && (match m {
                    MapOrDesc::Mapping(t) => t < self.nodes@.len(),
                    MapOrDesc::Desc(_) => true,
                }),
                Err(e) => self.partial_rel(0, token_views(input@), old(output)@, Err(e@)),
            },
    {
        proof {
            assert(token_views(input@).skip(0) =~= token_views(input@));
        }
        self.partial_from(0, input, 0, output)
    }

    /// Registers one command specification: a path of segment names, each
    /// with an optional decider for the edge that leads into it, and the
    /// finalizer of the complete command.
    ///
    /// The specification is merged with what is already registered:
    /// missing nodes are created, but neither an existing decider
    /// assignment nor an existing finalizer may be disturbed — supplying a
    /// decider for an existing edge fails with `DeciderAlreadyExists`, and
    /// a path that is already a complete command fails with
    /// `FinalizerAlreadyExists`.  A failing call leaves the trie exactly as
    /// it was.
    pub fn register(&mut self, specification: (Vec<(String, Option<Decider<DF>>)>, F)) -> (r:
        Result<(), RegError>)
        requires
            old(self).wf(),
            forall|j: int|
                0 <= j < specification.0@.len() && (#[trigger] specification.0@[j]).1 is Some
                    ==> Self::decider_is_total(specification.0@[j].1.unwrap().decider),
        ensures
            final(self).wf(),
            r == old(self).spec_register_result(0, specification.0@),
            r is Err ==> *final(self) == *old(self),
            r is Ok ==> Self::register_effect(
                *old(self),
                *final(self),
                specification.0@,
                specification.1,
            ),
    {
        let (path, fin) = specification;
        let ghost pview = path@;
        let ghost names = Self::names_of(pview);
        let walked = self.walk_prefix(&path);
        match walked {
            Err(e) => Err(e),
            Ok((cur0, j)) => {
                let mut cur = cur0;
                let mut k = j;
                if j == path.len() {
                    proof {
                        assert(pview.skip(j as int) =~= Seq::<
                            (String, Option<Decider<DF>>),
                        >::empty());
                        assert(names.take(j as int) =~= names);
                    }
                    if self.nodes[cur].finalizer.is_some() {
                        return Err(RegError::FinalizerAlreadyExists);
                    }
                    let ghost pre = *self;
                    let node = &mut self.nodes[cur];
                    node.finalizer = Some(fin);
                    proof {
                        self.lemma_register_install_finalizer(pre, cur as int, names, fin);
                        assert(pre.spec_register_result(cur as int, pview.skip(j as int))
                            == Ok::<(), RegError>(()));
                        assert forall|i2: int|
                            0 <= i2 < self.nodes@.len() && (#[trigger] self.nodes@[i2]).decider
                                is Some implies Self::decider_is_total(
                            self.nodes@[i2].decider.unwrap().decider,
                        ) by {
                            if i2 != cur as int {
                                assert(self.nodes@[i2] == pre.nodes@[i2]);
                            }
                            assert(self.nodes@[i2].decider == pre.nodes@[i2].decider);
                            assert(pre.deciders_ok());
                        }
                        assert forall|q: Seq<Seq<char>>|
                            #[trigger] self.has_node(q) <==> (pre.has_node(q) || is_prefix_of(
                                q,
                                names,
                            )) by {
                            assert(self.node_at(q) == pre.node_at(q));
                            if is_prefix_of(q, names) {
                                pre.lemma_has_node_prefix(names, q.len() as int);
                                assert(names.take(q.len() as int) == q);
                            }
                        }
                        assert forall|l: int|
                            0 < l <= names.len() implies #[trigger] self.decider_at(names.take(l))
                            == (if pre.has_node(names.take(l)) {
                            pre.decider_at(names.take(l))
                        } else {
                            pview[l - 1].1
                        }) by {
                            pre.lemma_has_node_prefix(names, l);
                        }
                    }
                    Ok(())
                } else {
                    proof {
                        assert(pview.skip(j as int)[0] == pview[j as int]);
                        assert(self.spec_register_result(0, pview) == Ok::<(), RegError>(()));
                    }
                    while k < path.len()
                        invariant
                            self.tree_ok(),
                            self.deciders_ok(),
                            path@ == pview,
                            names == Self::names_of(pview),
                            forall|l: int|
                                0 <= l < pview.len() && (#[trigger] pview[l]).1 is Some
                                    ==> Self::decider_is_total(pview[l].1.unwrap().decider),
                            j <= k <= pview.len(),
                            j < pview.len(),
                            cur < self.nodes@.len(),
                            self.descend(0, names.take(k as int)) == Some(cur as int),
                            k < pview.len() ==> self.child_of(cur as int, pview[k as int].0@)
                                is None,
                            k > j ==> self.nodes@[cur as int].finalizer is None,
                            forall|q: Seq<Seq<char>>|
                                #[trigger] self.has_node(q) <==> (old(self).has_node(q) || (
                                is_prefix_of(q, names.take(k as int)) && q.len() > j)),
                            forall|q: Seq<Seq<char>>|
                                #[trigger] self.finalizer_at(q) == old(self).finalizer_at(q),
                            forall|l: int|
                                j < l <= k ==> #[trigger] self.decider_at(names.take(l))
                                    == pview[l - 1].1,
                            forall|q: Seq<Seq<char>>|
                                !(is_prefix_of(q, names.take(k as int)) && q.len() > j)
                                    ==> #[trigger] self.decider_at(q) == old(self).decider_at(q),
                        decreases pview.len() - k,
                    {
                        let name = path[k].0.clone();
                        let dec = path[k].1;
                        let base = self.nodes.len();
                        let ghost pre = *self;
                        let leaf = Node { children: Vec::new(), decider: dec, finalizer: None };
                        self.nodes.push(leaf);
                        let pair = (name, base);
                        let ghost edge = pair;
                        let node = &mut self.nodes[cur];
                        node.children.push(pair);
                        proof {
                            assert(self.nodes@[base as int].decider == pview[k as int].1);
                            assert(edge.0@ == pview[k as int].0@);
                            self.lemma_register_graft_step(
                                pre,
                                *old(self),
                                cur as int,
                                edge,
                                names,
                                pview,
                                j as int,
                                k as int,
                            );
                            assert forall|i2: int|
                                0 <= i2 < self.nodes@.len() && (#[trigger] self.nodes@[i2]).decider
                                    is Some implies Self::decider_is_total(
                                self.nodes@[i2].decider.unwrap().decider,
                            ) by {
                                if i2 < pre.nodes@.len() {
                                    if i2 != cur as int {
                                        assert(self.nodes@[i2] == pre.nodes@[i2]);
                                    }
                                    assert(self.nodes@[i2].decider == pre.nodes@[i2].decider);
                                    assert(pre.deciders_ok());
                                } else {
                                    assert(self.nodes@[i2].decider == pview[k as int].1);
                                }
                            }
                        }
                        cur = base;
                        k += 1;
                    }
                    proof {
                        assert(names.take(k as int) =~= names);
                    }
                    let ghost pre = *self;
                    let node = &mut self.nodes[cur];
                    node.finalizer = Some(fin);
                    proof {
                        self.lemma_register_install_finalizer(pre, cur as int, names, fin);
                        let posttrie = *self;
                        assert forall|i2: int|
                            0 <= i2 < posttrie.nodes@.len() && (
                            #[trigger] posttrie.nodes@[i2]).decider is Some implies Self::decider_is_total(
                            posttrie.nodes@[i2].decider.unwrap().decider,
                        ) by {
                            if i2 != cur as int {
                                assert(posttrie.nodes@[i2] == pre.nodes@[i2]);
                            }
                            assert(posttrie.nodes@[i2].decider == pre.nodes@[i2].decider);
                            assert(pre.deciders_ok());
                        }
                        assert forall|q: Seq<Seq<char>>|
                            #[trigger] posttrie.has_node(q) <==> (old(self).has_node(q)
                                || is_prefix_of(q, names)) by {
                            assert(posttrie.node_at(q) == pre.node_at(q));
                            assert(pre.has_node(q) <==> (old(self).has_node(q) || (is_prefix_of(
                                q,
                                names.take(k as int),
                            ) && q.len() > j)));
                            if is_prefix_of(q, names) && q.len() <= j {
                                old(self).lemma_has_node_prefix(names.take(j as int), q.len() as int);
                                assert(names.take(j as int).take(q.len() as int) =~= names.take(
                                    q.len() as int,
                                ));
                                assert(names.take(q.len() as int) == q);
                                assert(old(self).has_node(q));
                            }
                        }
                        assert forall|q: Seq<Seq<char>>|
                            #[trigger] posttrie.finalizer_at(q) == (if q == names {
                                Some(fin)
                            } else {
                                old(self).finalizer_at(q)
                            }) by {
                            assert(pre.finalizer_at(q) == old(self).finalizer_at(q));
                        }
                        assert forall|l: int|
                            0 < l <= names.len() implies #[trigger] posttrie.decider_at(
                            names.take(l),
                        ) == (if old(self).has_node(names.take(l)) {
                            old(self).decider_at(names.take(l))
                        } else {
                            pview[l - 1].1
                        }) by {
                            assert(posttrie.decider_at(names.take(l)) == pre.decider_at(
                                names.take(l),
                            ));
                            if l <= j {
                                old(self).lemma_has_node_prefix(names.take(j as int), l);
                                assert(names.take(j as int).take(l) =~= names.take(l));
                                assert(old(self).has_node(names.take(l)));
                                assert(!(is_prefix_of(names.take(l), names.take(k as int))
                                    && names.take(l).len() > j));
                                assert(pre.decider_at(names.take(l)) == old(self).decider_at(
                                    names.take(l),
                                ));
                            } else {
                                assert(pre.decider_at(names.take(l)) == pview[l - 1].1);
                                assert(names.take(j as int) =~= names.take(l).take(j as int));
                                assert(names.take(l)[j as int] == names[j as int]);
                                assert(names[j as int] == pview[j as int].0@);
                                old(self).lemma_through_missing_edge(
                                    cur0 as int,
                                    names.take(j as int),
                                    names[j as int],
                                    names.take(l),
                                );
                                assert(!old(self).has_node(names.take(l)));
                            }
                        }
                        assert forall|q: Seq<Seq<char>>|
                            !(is_prefix_of(q, names) && q.len() > 0) implies #[trigger] posttrie.decider_at(
                            q,
                        ) == old(self).decider_at(q) by {
                            assert(posttrie.decider_at(q) == pre.decider_at(q));
                            assert(!(is_prefix_of(q, names.take(k as int)) && q.len() > j));
                            assert(pre.decider_at(q) == old(self).decider_at(q));
                        }
                    }
                    Ok(())
                }
            },
        }
    }

    /// One successful registration step of a batch: the specification
    /// registers cleanly and transforms the trie as
    /// [`Self::register_effect`] states.
    pub open spec fn register_step(
        pre: Self,
        post: Self,
        sp: (Vec<(String, Option<Decider<DF>>)>, F),
    ) -> bool {
        &&& pre.spec_register_result(0, sp.0@) is Ok
        &&& post.wf()
        &&& Self::register_effect(pre, post, sp.0@, sp.1)
    }

    /// The batch `specs` registers cleanly in order, turning `pre` into
    /// `post`: each specification succeeds on the trie the previous ones
    /// built.
    pub open spec fn register_batch(
        pre: Self,
        post: Self,
        specs: Seq<(Vec<(String, Option<Decider<DF>>)>, F)>,
    ) -> bool
        decreases specs.len(),
    {
        if specs.len() == 0 {
            post == pre
        } else {
            exists|mid: Self|
                #[trigger] Self::register_step(pre, mid, specs[0]) && Self::register_batch(
                    mid,
                    post,
                    specs.skip(1),
                )
        }
    }

    /// Extending a clean batch by one more clean step keeps it a clean
    /// batch.
    proof fn lemma_register_batch_snoc(
        pre: Self,
        mid: Self,
        post: Self,
        specs: Seq<(Vec<(String, Option<Decider<DF>>)>, F)>,
        sp: (Vec<(String, Option<Decider<DF>>)>, F),
    )
        requires
            Self::register_batch(pre, mid, specs),
            Self::register_step(mid, post, sp),
        ensures
            Self::register_batch(pre, post, specs.push(sp)),
        decreases specs.len(),
    {
        if specs.len() == 0 {
            assert(mid == pre);
            assert(specs.push(sp)[0] == sp);
            assert(specs.push(sp).skip(1) =~= Seq::<
                (Vec<(String, Option<Decider<DF>>)>, F),
            >::empty());
            assert(Self::register_batch(post, post, specs.push(sp).skip(1)));
            assert(Self::register_step(pre, post, sp));
        } else {
            let mid1 = choose|mid1: Self|
                #[trigger] Self::register_step(pre, mid1, specs[0]) && Self::register_batch(
                    mid1,
                    mid,
                    specs.skip(1),
                );
            Self::lemma_register_batch_snoc(mid1, mid, post, specs.skip(1), sp);
            assert(specs.push(sp)[0] == specs[0]);
            assert(specs.push(sp).skip(1) =~= specs.skip(1).push(sp));
            assert(Self::register_step(pre, mid1, specs.push(sp)[0]) && Self::register_batch(
                mid1,
                post,
                specs.push(sp).skip(1),
            ));
        }
    }

    /// A failed batch registration stopped at its first failing
    /// specification: the trie `post` is `pre` with some clean prefix of
    /// the batch registered, the next specification fails on it with
    /// exactly the error returned, and nothing later was touched.
    pub open spec fn register_many_err(
        pre: Self,
        post: Self,
        specs: Seq<(Vec<(String, Option<Decider<DF>>)>, F)>,
        e: RegError,
    ) -> bool {
        exists|k: int|
            {
                &&& 0 <= k < specs.len()
                &&& #[trigger] Self::register_batch(pre, post, specs.take(k))
                &&& post.spec_register_result(0, specs[k].0@) == Err::<(), RegError>(e)
            }
    }

    /// Registers a batch of command specifications, stopping at the first
    /// failure.
    ///
    /// The call succeeds exactly when every specification registers in
    /// order ([`Self::register_batch`]); then every specification's path is
    /// a complete command holding exactly the finalizer it supplied.  On
    /// failure the error is the first failing specification's, the
    /// specifications before it remain registered, and the failing one and
    /// everything after it change nothing ([`Self::register_many_err`]).
    pub fn register_many(&mut self, specs: Vec<(Vec<(String, Option<Decider<DF>>)>, F)>) -> (r:
        Result<(), RegError>)
        requires
            old(self).wf(),
            forall|i: int, j: int|
                0 <= i < specs@.len() && 0 <= j < specs@[i].0@.len() && (
                #[trigger] specs@[i].0@[j]).1 is Some ==> Self::decider_is_total(
                    specs@[i].0@[j].1.unwrap().decider,
                ),
        ensures
            final(self).wf(),
            match r {
                Ok(()) => Self::register_batch(*old(self), *final(self), specs@),
                Err(e) => Self::register_many_err(*old(self), *final(self), specs@, e),
            },
            r is Ok ==> forall|i: int|
                0 <= i < specs@.len() ==> #[trigger] final(self).finalizer_at(
                    Self::names_of(specs@[i].0@),
                ) == Some(specs@[i].1),
    {
        let ghost all = specs@;
        let mut rest = specs;
        let ghost mut done: int = 0;
        let mut failed: Option<RegError> = None;
        proof {
            assert(rest@ =~= all.skip(0));
            assert(all.take(0) =~= Seq::<(Vec<(String, Option<Decider<DF>>)>, F)>::empty());
            assert(Self::register_batch(*old(self), *self, all.take(0)));
        }
        while failed.is_none() && rest.len() > 0
            invariant
                self.wf(),
                0 <= done,
                failed is None ==> done + rest@.len() == all.len(),
                failed is None ==> rest@ == all.skip(done),
                failed is None ==> Self::register_batch(*old(self), *self, all.take(done)),
                match failed {
                    Some(e) => Self::register_many_err(*old(self), *self, all, e),
                    None => true,
                },
                forall|i: int, j: int|
                    0 <= i < all.len() && 0 <= j < all[i].0@.len() && (#[trigger] all[i].0@[j]).1
                        is Some ==> Self::decider_is_total(all[i].0@[j].1.unwrap().decider),
                failed is None ==> forall|i: int|
                    0 <= i < done ==> #[trigger] self.finalizer_at(Self::names_of(all[i].0@))
                        == Some(all[i].1),
            decreases rest@.len(),
        {
            let s = rest.remove(0);
            let ghost gs = s;
            let ghost prev = *self;
            proof {
                assert(all.skip(done)[0] == all[done]);
                assert(gs == all[done]);
                assert forall|j2: int|
                    0 <= j2 < gs.0@.len() && (#[trigger] gs.0@[j2]).1 is Some implies Self::decider_is_total(
                    gs.0@[j2].1.unwrap().decider,
                ) by {
                    assert((all[done].0@[j2]).1 == gs.0@[j2].1);
                }
                assert(rest@ =~= all.skip(done + 1));
            }
            match self.register(s) {
                Ok(()) => {
                    proof {
                        let names_s = Self::names_of(gs.0@);
                        assert(prev.spec_register_result(0, gs.0@) is Ok);
                        assert(prev.descend(0, Seq::<Seq<char>>::empty()) == Some(0int));
                        prev.lemma_register_ok_no_finalizer(
                            0,
                            Seq::<Seq<char>>::empty(),
                            gs.0@,
                        );
                        assert(Seq::<Seq<char>>::empty() + names_s =~= names_s);
                        assert(prev.finalizer_at(names_s) is None);
                        assert forall|i2: int|
                            0 <= i2 < done + 1 implies #[trigger] self.finalizer_at(
                            Self::names_of(all[i2].0@),
                        ) == Some(all[i2].1) by {
                            let names_i = Self::names_of(all[i2].0@);
                            if i2 < done {
                                assert(prev.finalizer_at(names_i) == Some(all[i2].1));
                                if names_i == names_s {
                                    assert(false);
                                }
                            } else {
                                assert(all[i2] == gs);
                            }
                        }
                        assert(Self::register_step(prev, *self, gs));
                        Self::lemma_register_batch_snoc(
                            *old(self),
                            prev,
                            *self,
                            all.take(done),
                            gs,
                        );
                        assert(all.take(done).push(gs) =~= all.take(done + 1));
                        done = done + 1;
                    }
                },
                Err(e) => {
                    proof {
                        assert(0 <= done < all.len());
                        assert(*self == prev);
                        assert(Self::register_batch(*old(self), prev, all.take(done)));
                        assert(prev.spec_register_result(0, all[done].0@) == Err::<(), RegError>(
                            e,
                        ));
                        assert(Self::register_many_err(*old(self), *self, all, e));
                    }
                    failed = Some(e);
                },
            }
        }
        match failed {
            Some(e) => {
                return Err(e);
            },
            None => {},
        }
        proof {
            assert(done == all.len());
            assert(all.take(done) =~= all);
        }
        Ok(())
    }
}

/// A missing child name matches no entry of the children list.
proof fn lemma_child_in_none(children: Seq<(String, usize)>, name: Seq<char>)
    requires
        child_in(children, name) is None,
    ensures
        forall|j: int| 0 <= j < children.len() ==> (#[trigger] children[j]).0@ != name,
    decreases children.len(),
{
    if children.len() == 0 {
    } else {
        lemma_child_in_none(children.skip(1), name);
        assert forall|j: int| 0 <= j < children.len() implies (#[trigger] children[j]).0@
            != name by {
            if j > 0 {
                assert(children.skip(1)[j - 1] == children[j]);
            }
        }
    }
}

impl<A, D, F, DF> Mapping<A, D, F, DF> {
    /// Walking a concatenation is walking the first part, then the second.
    proof fn lemma_descend_append(&self, i: int, p: Seq<Seq<char>>, q: Seq<Seq<char>>)
        ensures
            self.descend(i, p + q) == (match self.descend(i, p) {
                Some(m) => self.descend(m, q),
                None => None,
            }),
        decreases p.len(),
    {
        if p.len() == 0 {
            assert(p + q =~= q);
        } else {
            assert((p + q)[0] == p[0]);
            match self.child_of(i, p[0]) {
                Some(c) => {
                    self.lemma_descend_append(c, p.skip(1), q);
                    assert((p + q).skip(1) =~= p.skip(1) + q);
                    assert(self.descend(i, p + q) == self.descend(c, (p + q).skip(1)));
                    assert(self.descend(i, p) == self.descend(c, p.skip(1)));
                },
                None => {
                    assert(self.descend(i, p + q) is None);
                    assert(self.descend(i, p) is None);
                },
            }
        }
    }

    /// A walk of a nonempty path is a walk of all but the last segment,
    /// then one child step.
    pub proof fn lemma_descend_last(&self, i: int, q: Seq<Seq<char>>)
        requires
            q.len() > 0,
        ensures
            self.descend(i, q) == (match self.descend(i, q.drop_last()) {
                Some(m) => self.child_of(m, q.last()),
                None => None,
            }),
        decreases q.len(),
    {
        if q.len() == 1 {
            assert(q.drop_last() =~= Seq::<Seq<char>>::empty());
            assert(q.skip(1) =~= Seq::<Seq<char>>::empty());
            assert(self.descend(i, q.drop_last()) == Some(i));
            assert(q.last() == q[0]);
            match self.child_of(i, q[0]) {
                Some(c) => {
                    assert(self.descend(c, q.skip(1)) == Some(c));
                    assert(self.descend(i, q) == Some(c));
                },
                None => {
                    assert(self.descend(i, q) is None);
                },
            }
        } else {
            let qd = q.drop_last();
            assert(qd.len() > 0 && qd[0] == q[0]);
            match self.child_of(i, q[0]) {
                Some(c) => {
                    self.lemma_descend_last(c, q.skip(1));
                    assert(q.skip(1).drop_last() =~= qd.skip(1));
                    assert(q.skip(1).last() == q.last());
                    assert(self.descend(i, q) == self.descend(c, q.skip(1)));
                    assert(self.descend(i, qd) == self.descend(c, qd.skip(1)));
                },
                None => {
                    assert(self.descend(i, q) is None);
                    assert(self.descend(i, qd) is None);
                },
            }
        }
    }

    /// Walks stay inside the arena and never move backwards.
    proof fn lemma_descend_range(&self, i: int, q: Seq<Seq<char>>)
        requires
            self.tree_ok(),
            0 <= i < self.nodes@.len(),
            self.descend(i, q) is Some,
        ensures
            i <= self.descend(i, q).unwrap() < self.nodes@.len(),
        decreases q.len(),
    {
        if q.len() == 0 {
        } else {
            match self.child_of(i, q[0]) {
                Some(c) => {
                    lemma_child_in_mem(self.nodes@[i].children@, q[0]);
                    assert(self.node_ok(i));
                    assert(i < c < self.nodes@.len());
                    self.lemma_descend_range(c, q.skip(1));
                },
                None => {},
            }
        }
    }

    /// In a tree every node is reached by at most one path.
    proof fn lemma_node_at_inj(&self, q1: Seq<Seq<char>>, q2: Seq<Seq<char>>)
        requires
            self.tree_ok(),
            self.node_at(q1) is Some,
            self.node_at(q1) == self.node_at(q2),
        ensures
            q1 == q2,
        decreases q1.len() + q2.len(),
    {
        let t = self.node_at(q1).unwrap();
        if q1.len() == 0 && q2.len() == 0 {
            assert(q1 =~= q2);
        } else if q1.len() == 0 || q2.len() == 0 {
            let (qe, qn) = if q1.len() == 0 {
                (q1, q2)
            } else {
                (q2, q1)
            };
            // the empty path stays at the root, while the last step of the
            // nonempty path follows an edge, and no edge targets the root
            assert(t == 0);
            self.lemma_descend_last(0, qn);
            match self.descend(0, qn.drop_last()) {
                Some(m) => {
                    self.lemma_descend_range(0, qn.drop_last());
                    lemma_child_in_mem(self.nodes@[m].children@, qn.last());
                    assert(false);
                },
                None => {
                    assert(false);
                },
            }
        } else {
            self.lemma_descend_last(0, q1);
            self.lemma_descend_last(0, q2);
            let a1 = self.descend(0, q1.drop_last()).unwrap();
            let a2 = self.descend(0, q2.drop_last()).unwrap();
            self.lemma_descend_range(0, q1.drop_last());
            self.lemma_descend_range(0, q2.drop_last());
            lemma_child_in_mem(self.nodes@[a1].children@, q1.last());
            lemma_child_in_mem(self.nodes@[a2].children@, q2.last());
            let j1 = choose|j: int|
                0 <= j < self.nodes@[a1].children@.len() && (#[trigger] self.nodes@[a1].children@[j]).0@
                    == q1.last() && self.nodes@[a1].children@[j].1 as int == t;
            let j2 = choose|j: int|
                0 <= j < self.nodes@[a2].children@.len() && (#[trigger] self.nodes@[a2].children@[j]).0@
                    == q2.last() && self.nodes@[a2].children@[j].1 as int == t;
            // the two edges target the same node, so they are one edge
            assert(a1 == a2 && j1 == j2);
            assert(q1.last() == q2.last());
            self.lemma_node_at_inj(q1.drop_last(), q2.drop_last());
            assert forall|idx: int| 0 <= idx < q1.len() implies q1[idx] == q2[idx] by {
                if idx < q1.len() - 1 {
                    assert(q1.drop_last()[idx] == q2.drop_last()[idx]);
                }
            }
            assert(q1 =~= q2);
        }
    }

    /// Walks ignore everything about nodes except their children lists.
    proof fn lemma_same_children_descend(m1: &Self, m2: &Self, i: int, q: Seq<Seq<char>>)
        requires
            m1.tree_ok(),
            0 <= i < m1.nodes@.len(),
            m1.nodes@.len() == m2.nodes@.len(),
            forall|idx: int|
                0 <= idx < m1.nodes@.len() ==> (#[trigger] m2.nodes@[idx]).children
                    == m1.nodes@[idx].children,
        ensures
            m2.descend(i, q) == m1.descend(i, q),
        decreases q.len(),
    {
        if q.len() == 0 {
        } else {
            assert(m2.nodes@[i].children == m1.nodes@[i].children);
            match m1.child_of(i, q[0]) {
                Some(c) => {
                    lemma_child_in_mem(m1.nodes@[i].children@, q[0]);
                    assert(m1.node_ok(i));
                    Self::lemma_same_children_descend(m1, m2, c, q.skip(1));
                },
                None => {},
            }
        }
    }

    /// Grafting a fresh leaf under node `t` via edge `e` creates exactly
    /// one new path and disturbs no other walk.
    ///
    /// `pt` is the path of `t`; the new leaf sits at the end of the arena.
    proof fn lemma_graft_leaf_node_at(
        m1: &Self,
        m2: &Self,
        t: int,
        pt: Seq<Seq<char>>,
        e: (String, usize),
        q: Seq<Seq<char>>,
    )
        requires
            m1.tree_ok(),
            0 <= t < m1.nodes@.len(),
            m1.node_at(pt) == Some(t),
            child_in(m1.nodes@[t].children@, e.0@) is None,
            e.1 == m1.nodes@.len(),
            m2.nodes@.len() == m1.nodes@.len() + 1,
            m2.nodes@[t].children@ == m1.nodes@[t].children@.push(e),
            forall|idx: int|
                0 <= idx < m1.nodes@.len() && idx != t ==> #[trigger] m2.nodes@[idx]
                    == m1.nodes@[idx],
            m2.nodes@[e.1 as int].children@.len() == 0,
        ensures
            m2.node_at(q) == (if q.len() == pt.len() + 1 && q.take(pt.len() as int) == pt
                && q.last() == e.0@ {
                Some(e.1 as int)
            } else if q.len() > pt.len() + 1 && q.take(pt.len() as int) == pt && q[pt.len() as int]
                == e.0@ {
                None
            } else {
                m1.node_at(q)
            }),
        decreases q.len(),
    {
        let base = e.1 as int;
        if q.len() == 0 {
        } else {
            Self::lemma_graft_leaf_node_at(m1, m2, t, pt, e, q.drop_last());
            m1.lemma_descend_last(0, q);
            m2.lemma_descend_last(0, q);
            let qd = q.drop_last();
            if qd.len() == pt.len() && qd.take(pt.len() as int) == pt && (qd.len() == pt.len()
                + 1 && qd.last() == e.0@) {
                // impossible shape; kept for symmetry with the spec cases
                assert(false);
            }
            if qd.len() == pt.len() + 1 && qd.take(pt.len() as int) == pt && qd.last() == e.0@ {
                // the previous step already sits on the fresh leaf, which
                // has no children
                assert(m2.node_at(qd) == Some(base));
                assert(m2.child_of(base, q.last()) is None);
                assert(q.take(pt.len() as int) =~= qd.take(pt.len() as int));
                assert(q[pt.len() as int] == qd[pt.len() as int]);
            } else if qd.len() > pt.len() + 1 && qd.take(pt.len() as int) == pt && qd[pt.len() as int]
                == e.0@ {
                assert(m2.node_at(qd) is None);
                assert(q.take(pt.len() as int) =~= qd.take(pt.len() as int));
                assert(q[pt.len() as int] == qd[pt.len() as int]);
            } else {
                // the walk so far agrees with the old trie
                assert(m2.node_at(qd) == m1.node_at(qd));
                match m1.node_at(qd) {
                    Some(m) => {
                        m1.lemma_descend_range(0, qd);
                        if m == t {
                            m1.lemma_node_at_inj(qd, pt);
                            assert(qd == pt);
                            lemma_child_in_push(m1.nodes@[t].children@, e, q.last());
                            if q.last() == e.0@ {
                                assert(q.take(pt.len() as int) =~= pt);
                                assert(m2.node_at(q) == Some(base));
                            } else {
                                assert(m2.child_of(t, q.last()) == m1.child_of(t, q.last()));
                                if q.len() == pt.len() + 1 && q.take(pt.len() as int) == pt
                                    && q.last() == e.0@ {
                                    assert(false);
                                }
                            }
                        } else {
                            assert(m2.nodes@[m] == m1.nodes@[m]);
                            assert(m2.child_of(m, q.last()) == m1.child_of(m, q.last()));
                            if q.len() >= pt.len() + 1 && q.take(pt.len() as int) == pt && q[pt.len() as int]
                                == e.0@ {
                                // such a walk would pass through `t` after
                                // `pt`, but `qd` reaches `m != t`
                                if qd.len() == pt.len() {
                                    assert(qd =~= q.take(pt.len() as int));
                                    assert(false);
                                } else {
                                    // qd.len() > pt.len(): m1.node_at(qd) went past t's fresh edge
                                    assert(qd.take(pt.len() as int) =~= q.take(pt.len() as int));
                                    assert(qd[pt.len() as int] == q[pt.len() as int]);
                                    assert(false);
                                }
                            }
                        }
                    },
                    None => {
                        if q.len() >= pt.len() + 1 && q.take(pt.len() as int) == pt && q[pt.len() as int]
                            == e.0@ {
                            if qd.len() == pt.len() {
                                assert(qd =~= q.take(pt.len() as int));
                                assert(false);
                            } else {
                                assert(qd.take(pt.len() as int) =~= q.take(pt.len() as int));
                                assert(qd[pt.len() as int] == q[pt.len() as int]);
                                assert(false);
                            }
                        }
                    },
                }
            }
        }
    }
    /// A prefix of an existing path exists.
    pub proof fn lemma_has_node_prefix(&self, p: Seq<Seq<char>>, l: int)
        requires
            0 <= l <= p.len(),
            self.node_at(p) is Some,
        ensures
            self.node_at(p.take(l)) is Some,
    {
        self.lemma_descend_append(0, p.take(l), p.skip(l));
        assert(p.take(l) + p.skip(l) =~= p);
    }

    /// No path runs through an edge that is not there.
    proof fn lemma_through_missing_edge(
        &self,
        t: int,
        pt: Seq<Seq<char>>,
        s: Seq<char>,
        q: Seq<Seq<char>>,
    )
        requires
            self.node_at(pt) == Some(t),
            self.child_of(t, s) is None,
            q.len() > pt.len(),
            q.take(pt.len() as int) == pt,
            q[pt.len() as int] == s,
        ensures
            self.node_at(q) is None,
    {
        if self.node_at(q) is Some {
            self.lemma_has_node_prefix(q, pt.len() as int + 1);
            self.lemma_descend_last(0, q.take(pt.len() as int + 1));
            assert(q.take(pt.len() as int + 1).drop_last() =~= pt);
            assert(q.take(pt.len() as int + 1).last() == s);
            assert(false);
        }
    }

    /// A registration that would succeed finds no finalizer at the end of
    /// its path.
    proof fn lemma_register_ok_no_finalizer(
        &self,
        i: int,
        p: Seq<Seq<char>>,
        path: Seq<(String, Option<Decider<DF>>)>,
    )
        requires
            self.descend(0, p) == Some(i),
            self.spec_register_result(i, path) is Ok,
        ensures
            self.finalizer_at(p + Self::names_of(path)) is None,
        decreases path.len(),
    {
        let names = Self::names_of(path);
        if path.len() == 0 {
            assert(p + names =~= p);
        } else {
            assert(names[0] == path[0].0@);
            match self.child_of(i, path[0].0@) {
                Some(c) => {
                    let pc = p.push(path[0].0@);
                    self.lemma_descend_last(0, pc);
                    assert(pc.drop_last() =~= p);
                    assert(pc.last() == path[0].0@);
                    self.lemma_register_ok_no_finalizer(c, pc, path.skip(1));
                    assert(Self::names_of(path.skip(1)) =~= names.skip(1));
                    assert(pc + names.skip(1) =~= p + names);
                },
                None => {
                    assert((p + names).take(p.len() as int) =~= p);
                    assert((p + names)[p.len() as int] == names[0]);
                    self.lemma_through_missing_edge(i, p, path[0].0@, p + names);
                },
            }
        }
    }

    /// Installing a finalizer at the node `names` reaches changes that one
    /// observation and nothing else.
    ///
    /// `self` is the trie after the update, `pre` the trie before it.
    proof fn lemma_register_install_finalizer(
        &self,
        pre: Self,
        t: int,
        names: Seq<Seq<char>>,
        fin: F,
    )
        requires
            pre.tree_ok(),
            0 <= t < pre.nodes@.len(),
            pre.node_at(names) == Some(t),
            self.nodes@.len() == pre.nodes@.len(),
            self.nodes@[t].children == pre.nodes@[t].children,
            self.nodes@[t].decider == pre.nodes@[t].decider,
            self.nodes@[t].finalizer == Some(fin),
            forall|idx: int|
                0 <= idx < pre.nodes@.len() && idx != t ==> #[trigger] self.nodes@[idx]
                    == pre.nodes@[idx],
        ensures
            self.tree_ok(),
            forall|q: Seq<Seq<char>>| #[trigger] self.node_at(q) == pre.node_at(q),
            forall|q: Seq<Seq<char>>|
                #[trigger] self.finalizer_at(q) == (if q == names {
                    Some(fin)
                } else {
                    pre.finalizer_at(q)
                }),
            forall|q: Seq<Seq<char>>| #[trigger] self.decider_at(q) == pre.decider_at(q),
    {
        assert forall|idx: int|
            0 <= idx < pre.nodes@.len() implies (#[trigger] self.nodes@[idx]).children
            == pre.nodes@[idx].children by {
            if idx != t {
                assert(self.nodes@[idx] == pre.nodes@[idx]);
            }
        }
        assert forall|i2: int| 0 <= i2 < self.nodes@.len() implies self.node_ok(i2) by {
            assert(pre.node_ok(i2));
            assert(self.nodes@[i2].children == pre.nodes@[i2].children);
        }
        assert(self.edges_ok()) by {
            assert(pre.edges_ok());
            assert forall|i1: int, j1: int, i2: int, j2: int|
                0 <= i1 < self.nodes@.len() && 0 <= j1 < self.nodes@[i1].children@.len() && 0 <= i2
                    < self.nodes@.len() && 0 <= j2 < self.nodes@[i2].children@.len() && (i1 != i2
                    || j1 != j2) implies #[trigger] self.nodes@[i1].children@[j1].1
                != #[trigger] self.nodes@[i2].children@[j2].1 by {
                assert(self.nodes@[i1].children == pre.nodes@[i1].children);
                assert(self.nodes@[i2].children == pre.nodes@[i2].children);
            }
            assert forall|i2: int, j2: int|
                0 <= i2 < self.nodes@.len() && 0 <= j2 < self.nodes@[i2].children@.len() implies (
            #[trigger] self.nodes@[i2].children@[j2]).1 != 0 by {
                assert(self.nodes@[i2].children == pre.nodes@[i2].children);
            }
        }
        assert forall|q: Seq<Seq<char>>| #[trigger] self.node_at(q) == pre.node_at(q) by {
            Self::lemma_same_children_descend(&pre, self, 0, q);
        }
        assert forall|q: Seq<Seq<char>>|
            #[trigger] self.finalizer_at(q) == (if q == names {
                Some(fin)
            } else {
                pre.finalizer_at(q)
            }) by {
            match pre.node_at(q) {
                Some(m) => {
                    pre.lemma_descend_range(0, q);
                    if m == t {
                        pre.lemma_node_at_inj(q, names);
                        assert(q == names);
                    } else {
                        assert(self.nodes@[m] == pre.nodes@[m]);
                        assert(q != names);
                    }
                },
                None => {
                    assert(q != names);
                },
            }
        }
        assert forall|q: Seq<Seq<char>>| #[trigger] self.decider_at(q) == pre.decider_at(q) by {
            match pre.node_at(q) {
                Some(m) => {
                    pre.lemma_descend_range(0, q);
                    if m != t {
                        assert(self.nodes@[m] == pre.nodes@[m]);
                    }
                },
                None => {},
            }
        }
    }

    /// One step of growing a registration chain: grafting a fresh leaf for
    /// segment `k` of the path onto the chain's current end.
    ///
    /// `self` is the trie after the graft, `pre` the trie just before it,
    /// and `orig` the trie as registration found it; the trie so far
    /// relates to `orig` as the loop invariant of registration states, and
    /// the conclusions restate that invariant for the grown chain.
    proof fn lemma_register_graft_step(
        &self,
        pre: Self,
        orig: Self,
        t: int,
        edge: (String, usize),
        names: Seq<Seq<char>>,
        pview: Seq<(String, Option<Decider<DF>>)>,
        j: int,
        k: int,
    )
        requires
            pre.tree_ok(),
            0 <= t < pre.nodes@.len(),
            names == Self::names_of(pview),
            0 <= j <= k < pview.len(),
            edge.0@ == pview[k].0@,
            pre.descend(0, names.take(k)) == Some(t),
            pre.child_of(t, pview[k].0@) is None,
            forall|q: Seq<Seq<char>>|
                #[trigger] pre.has_node(q) <==> (orig.has_node(q) || (is_prefix_of(
                    q,
                    names.take(k),
                ) && q.len() > j)),
            forall|q: Seq<Seq<char>>| #[trigger] pre.finalizer_at(q) == orig.finalizer_at(q),
            forall|q: Seq<Seq<char>>|
                !(is_prefix_of(q, names.take(k)) && q.len() > j) ==> #[trigger] pre.decider_at(q)
                    == orig.decider_at(q),
            forall|l2: int|
                j < l2 <= k ==> #[trigger] pre.decider_at(names.take(l2)) == pview[l2 - 1].1,
            edge.1 == pre.nodes@.len(),
            self.nodes@.len() == pre.nodes@.len() + 1,
            self.nodes@[t].children@ == pre.nodes@[t].children@.push(edge),
            self.nodes@[t].decider == pre.nodes@[t].decider,
            self.nodes@[t].finalizer == pre.nodes@[t].finalizer,
            forall|idx: int|
                0 <= idx < pre.nodes@.len() && idx != t ==> #[trigger] self.nodes@[idx]
                    == pre.nodes@[idx],
            self.nodes@[edge.1 as int].children@.len() == 0,
            self.nodes@[edge.1 as int].decider == pview[k].1,
            self.nodes@[edge.1 as int].finalizer is None,
        ensures
            self.tree_ok(),
            self.descend(0, names.take(k + 1)) == Some(edge.1 as int),
            k + 1 < pview.len() ==> self.child_of(edge.1 as int, pview[k + 1].0@) is None,
            self.nodes@[edge.1 as int].finalizer is None,
            forall|q: Seq<Seq<char>>|
                #[trigger] self.has_node(q) <==> (orig.has_node(q) || (is_prefix_of(
                    q,
                    names.take(k + 1),
                ) && q.len() > j)),
            forall|q: Seq<Seq<char>>| #[trigger] self.finalizer_at(q) == orig.finalizer_at(q),
            forall|l: int|
                j < l <= k + 1 ==> #[trigger] self.decider_at(names.take(l)) == pview[l - 1].1,
            forall|q: Seq<Seq<char>>|
                !(is_prefix_of(q, names.take(k + 1)) && q.len() > j) ==> #[trigger] self.decider_at(
                    q,
                ) == orig.decider_at(q),
    {
        let base = edge.1 as int;
        let pt = names.take(k);
        Self::lemma_graft_leaf_tree_ok(&pre, self, t, edge);
        // the fresh path the graft creates
        let fresh = names.take(k + 1);
        assert(fresh.take(pt.len() as int) =~= pt);
        assert(fresh.last() == names[k]);
        assert(names[k] == pview[k].0@);
        Self::lemma_graft_leaf_node_at(&pre, self, t, pt, edge, fresh);
        assert(self.node_at(fresh) == Some(base));
        // no path of length k + 1 other than `fresh` runs through the edge
        assert forall|q: Seq<Seq<char>>|
            q.len() == pt.len() + 1 && q.take(pt.len() as int) == pt && q.last() == edge.0@
                implies q == fresh by {
            assert forall|idx: int| 0 <= idx < q.len() implies q[idx] == fresh[idx] by {
                if idx < pt.len() {
                    assert(q.take(pt.len() as int)[idx] == q[idx]);
                    assert(pt[idx] == names[idx]);
                }
            }
            assert(q =~= fresh);
        }
        // the new leaf has no children at all
        assert forall|s: Seq<char>| self.child_of(base, s) is None by {
            assert(self.nodes@[base].children@.len() == 0);
        }
        // the three-way case split of the graft, shared by every clause
        assert forall|q: Seq<Seq<char>>|
            #[trigger] self.has_node(q) <==> (orig.has_node(q) || (is_prefix_of(
                q,
                names.take(k + 1),
            ) && q.len() > j)) by {
            Self::lemma_graft_leaf_node_at(&pre, self, t, pt, edge, q);
            assert(pre.has_node(q) <==> (orig.has_node(q) || (is_prefix_of(q, pt) && q.len()
                > j)));
            if q.len() == pt.len() + 1 && q.take(pt.len() as int) == pt && q.last() == edge.0@ {
                assert(q == fresh);
                assert(self.has_node(q));
                assert(fresh.take(q.len() as int) =~= q);
                assert(is_prefix_of(q, fresh) && q.len() > j);
            } else if q.len() > pt.len() + 1 && q.take(pt.len() as int) == pt && q[pt.len() as int]
                == edge.0@ {
                assert(!self.has_node(q));
                pre.lemma_through_missing_edge(t, pt, edge.0@, q);
                assert(!pre.has_node(q));
                assert(!(is_prefix_of(q, pt) && q.len() > j));
                assert(!orig.has_node(q));
                assert(!(is_prefix_of(q, fresh) && q.len() > j));
            } else {
                assert(self.node_at(q) == pre.node_at(q));
                if is_prefix_of(q, pt) {
                    assert(pt.take(q.len() as int) =~= fresh.take(q.len() as int));
                    assert(is_prefix_of(q, fresh));
                }
                if is_prefix_of(q, fresh) {
                    if q.len() <= pt.len() {
                        assert(fresh.take(q.len() as int) =~= pt.take(q.len() as int));
                        assert(is_prefix_of(q, pt));
                    } else {
                        assert(q.len() == pt.len() + 1);
                        assert(q == fresh.take(q.len() as int));
                        assert(fresh.take(q.len() as int) =~= fresh);
                        assert(q.take(pt.len() as int) =~= pt);
                        assert(q.last() == edge.0@);
                        assert(false);
                    }
                }
            }
        }
        assert forall|q: Seq<Seq<char>>|
            #[trigger] self.finalizer_at(q) == orig.finalizer_at(q) by {
            Self::lemma_graft_leaf_node_at(&pre, self, t, pt, edge, q);
            assert(pre.finalizer_at(q) == orig.finalizer_at(q));
            if q.len() == pt.len() + 1 && q.take(pt.len() as int) == pt && q.last() == edge.0@ {
                assert(q == fresh);
                assert(self.finalizer_at(q) is None);
                pre.lemma_through_missing_edge(t, pt, edge.0@, q);
                assert(pre.finalizer_at(q) is None);
            } else if q.len() > pt.len() + 1 && q.take(pt.len() as int) == pt && q[pt.len() as int]
                == edge.0@ {
                pre.lemma_through_missing_edge(t, pt, edge.0@, q);
                assert(self.finalizer_at(q) is None);
                assert(pre.finalizer_at(q) is None);
            } else {
                assert(self.node_at(q) == pre.node_at(q));
                match pre.node_at(q) {
                    Some(m) => {
                        pre.lemma_descend_range(0, q);
                        if m != t {
                            assert(self.nodes@[m] == pre.nodes@[m]);
                        }
                        assert(self.finalizer_at(q) == pre.finalizer_at(q));
                    },
                    None => {
                        assert(self.finalizer_at(q) is None && pre.finalizer_at(q) is None);
                    },
                }
            }
        }
        assert forall|l: int|
            j < l <= k + 1 implies #[trigger] self.decider_at(names.take(l)) == pview[l - 1].1 by {
            if l == k + 1 {
                assert(names.take(l) == fresh);
                assert(self.decider_at(fresh) == pview[k].1);
            } else {
                let q = names.take(l);
                Self::lemma_graft_leaf_node_at(&pre, self, t, pt, edge, q);
                assert(q.len() == l <= k);
                assert(self.node_at(q) == pre.node_at(q));
                match pre.node_at(q) {
                    Some(m) => {
                        pre.lemma_descend_range(0, q);
                        if m != t {
                            assert(self.nodes@[m] == pre.nodes@[m]);
                        }
                    },
                    None => {},
                }
                assert(self.decider_at(q) == pre.decider_at(q));
                assert(pre.decider_at(names.take(l)) == pview[l - 1].1);
            }
        }
        assert forall|q: Seq<Seq<char>>|
            !(is_prefix_of(q, names.take(k + 1)) && q.len() > j) implies #[trigger] self.decider_at(
                q,
            ) == orig.decider_at(q) by {
            Self::lemma_graft_leaf_node_at(&pre, self, t, pt, edge, q);
            if q.len() == pt.len() + 1 && q.take(pt.len() as int) == pt && q.last() == edge.0@ {
                assert(q == fresh);
                assert(fresh.take(q.len() as int) =~= q);
                assert(is_prefix_of(q, fresh) && q.len() > j);
            } else if q.len() > pt.len() + 1 && q.take(pt.len() as int) == pt && q[pt.len() as int]
                == edge.0@ {
                assert(self.decider_at(q) is None);
                pre.lemma_through_missing_edge(t, pt, edge.0@, q);
                assert(pre.has_node(q) <==> (orig.has_node(q) || (is_prefix_of(q, pt) && q.len()
                    > j)));
                assert(!(is_prefix_of(q, pt) && q.len() > j));
                assert(!orig.has_node(q));
                assert(orig.decider_at(q) is None);
            } else {
                assert(self.node_at(q) == pre.node_at(q));
                match pre.node_at(q) {
                    Some(m) => {
                        pre.lemma_descend_range(0, q);
                        if m != t {
                            assert(self.nodes@[m] == pre.nodes@[m]);
                        }
                    },
                    None => {},
                }
                assert(self.decider_at(q) == pre.decider_at(q));
                if is_prefix_of(q, pt) && q.len() > j {
                    assert(pt.take(q.len() as int) =~= fresh.take(q.len() as int));
                    assert(is_prefix_of(q, fresh));
                    assert(false);
                }
                assert(pre.decider_at(q) == orig.decider_at(q));
            }
        }
    }

    /// Grafting a fresh leaf keeps the arena a tree.
    proof fn lemma_graft_leaf_tree_ok(m1: &Self, m2: &Self, t: int, e: (String, usize))
        requires
            m1.tree_ok(),
            0 <= t < m1.nodes@.len(),
            child_in(m1.nodes@[t].children@, e.0@) is None,
            e.1 == m1.nodes@.len(),
            m2.nodes@.len() == m1.nodes@.len() + 1,
            m2.nodes@[t].children@ == m1.nodes@[t].children@.push(e),
            m2.nodes@[t].decider == m1.nodes@[t].decider,
            m2.nodes@[t].finalizer == m1.nodes@[t].finalizer,
            forall|idx: int|
                0 <= idx < m1.nodes@.len() && idx != t ==> #[trigger] m2.nodes@[idx]
                    == m1.nodes@[idx],
            m2.nodes@[e.1 as int].children@.len() == 0,
        ensures
            m2.tree_ok(),
    {
        let base = e.1 as int;
        let oldc = m1.nodes@[t].children@;
        let newc = m2.nodes@[t].children@;
        lemma_child_in_none(oldc, e.0@);
        assert forall|i: int| 0 <= i < m2.nodes@.len() implies m2.node_ok(i) by {
            if i == base {
                assert(m2.nodes@[i].children@.len() == 0);
            } else if i == t {
                assert(m1.node_ok(t));
                assert forall|j: int, k: int| 0 <= j < k < newc.len() implies (
                #[trigger] newc[j]).0@ != (#[trigger] newc[k]).0@ by {
                    if k < oldc.len() {
                        assert(newc[j] == oldc[j] && newc[k] == oldc[k]);
                    } else {
                        assert(newc[k] == e);
                        assert(newc[j] == oldc[j]);
                    }
                }
                assert forall|j: int| 0 <= j < newc.len() implies t < (#[trigger] newc[j]).1
                    < m2.nodes@.len() by {
                    if j < oldc.len() {
                        assert(newc[j] == oldc[j]);
                    } else {
                        assert(newc[j] == e);
                    }
                }
            } else {
                assert(m1.node_ok(i));
                assert(m2.nodes@[i] == m1.nodes@[i]);
            }
        }
        assert(m1.edges_ok());
        assert forall|i1: int, j1: int, i2: int, j2: int|
            0 <= i1 < m2.nodes@.len() && 0 <= j1 < m2.nodes@[i1].children@.len() && 0 <= i2
                < m2.nodes@.len() && 0 <= j2 < m2.nodes@[i2].children@.len() && (i1 != i2 || j1
                != j2) implies #[trigger] m2.nodes@[i1].children@[j1].1
            != #[trigger] m2.nodes@[i2].children@[j2].1 by {
            let fresh1 = i1 == t && j1 == oldc.len();
            let fresh2 = i2 == t && j2 == oldc.len();
            if fresh1 && fresh2 {
                assert(false);
            } else {
                if !fresh1 {
                    assert(i1 != base);
                    assert(m2.nodes@[i1].children@[j1] == m1.nodes@[i1].children@[j1]);
                    assert(m1.node_ok(i1));
                    assert(m1.nodes@[i1].children@[j1].1 < base);
                }
                if !fresh2 {
                    assert(i2 != base);
                    assert(m2.nodes@[i2].children@[j2] == m1.nodes@[i2].children@[j2]);
                    assert(m1.node_ok(i2));
                    assert(m1.nodes@[i2].children@[j2].1 < base);
                }
                if fresh1 {
                    assert(m2.nodes@[i1].children@[j1].1 == e.1);
                } else if fresh2 {
                    assert(m2.nodes@[i2].children@[j2].1 == e.1);
                }
            }
        }
        assert forall|i: int, j: int|
            0 <= i < m2.nodes@.len() && 0 <= j < m2.nodes@[i].children@.len() implies (
        #[trigger] m2.nodes@[i].children@[j]).1 != 0 by {
            if i == t && j == oldc.len() {
                assert(m2.nodes@[i].children@[j] == e);
            } else {
                assert(i != base);
                assert(m2.nodes@[i].children@[j] == m1.nodes@[i].children@[j]);
            }
        }
    }
}

/// What a partial lookup resolves to: the trie node whose children are the
/// legal next segments, given by its arena index, or the description of the
/// decider that is waiting for an argument.
pub enum MapOrDesc {
    Mapping(usize),
    Desc(&'static str),
}

/// The mathematical reading of a [`MapOrDesc`].
pub enum MapOrDescView {
    Mapping(int),
    Desc(Seq<char>),
}

impl View for MapOrDesc {
    type V = MapOrDescView;

    open spec fn view(&self) -> MapOrDescView {
        match self {
            MapOrDesc::Mapping(i) => MapOrDescView::Mapping(*i as int),
            MapOrDesc::Desc(d) => MapOrDescView::Desc(d@),
        }
    }
}

impl<A, D, F, DF> Default for Mapping<A, D, F, DF> {
    /// A fresh trie holding no commands at all.
    fn default() -> (r: Self)
        ensures
            r.tree_ok(),
            r.is_empty_trie(),
    {
        let root = Node { children: Vec::new(), decider: None, finalizer: None };
        let mut nodes = Vec::new();
        nodes.push(root);
        Mapping { nodes, marker: PhantomData }
    }
}

} // verus!
