//! The expansion of inclusions: every inclusion is replaced by what the
//! caller's resolver gives for its target, itself expanded.
use vstd::prelude::*;
use crate::ast::{Ast, Node, lemma_trees_view, trees_view};
use crate::error::Error;
use crate::text::str_eq;

verus! {

broadcast use {
    vstd::group_vstd_default,
    vstd::seq::axiom_seq_index_decreases,
    vstd::std_specs::vec::group_vec_axioms,
};

/// The resolver may answer `r` when asked for `target`.
pub open spec fn resolves<E, F: Fn(String) -> Result<Ast, E>>(
    inc: F,
    target: Seq<char>,
    r: Result<Ast, E>,
) -> bool {
    exists|t: String| t@ == target && call_ensures(inc, (t, ), r)
}

/// `res` is an outcome of expanding `node` with the resolver `inc`, where
/// inclusions may be nested `depth` deep.
///
/// An inclusion is replaced by the expansion of what the resolver gives for
/// its target; the resolver's error ends the expansion, and so does an
/// inclusion met when `depth` is used up. Any other node keeps all but its
/// children, which are expanded in order; the first child that fails gives
/// the error.
pub open spec fn expansion<E, F: Fn(String) -> Result<Ast, E>>(
    inc: F,
    node: Node,
    depth: nat,
    res: Result<Node, Error<E>>,
) -> bool
    decreases depth, node,
{
    if node.is_include() {
        if depth == 0 {
            res == Err::<Node, Error<E>>(Error::Depth)
        } else {
            exists|r: Result<Ast, E>| #[trigger]
                resolves(inc, node.id->0, r) && match r {
                    Ok(sub) => expansion(inc, sub@, (depth - 1) as nat, res),
                    Err(e) => res == Err::<Node, Error<E>>(Error::Include(e)),
                }
        }
    } else {
        match res {
            Ok(out) => {
                &&& out == node.with_children(out.children)
                &&& out.children.len() == node.children.len()
                &&& forall|i: int|
                    0 <= i < node.children.len() ==> expansion(
                        inc,
                        #[trigger] node.children[i],
                        depth,
                        Ok(out.children[i]),
                    )
            },
            Err(e) => exists|k: int, done: Seq<Node>|
                #![trigger node.children[k], done.len()]
                {
                    &&& 0 <= k < node.children.len()
                    &&& done.len() == k
                    &&& forall|j: int|
                        0 <= j < k ==> expansion(
                            inc,
                            #[trigger] node.children[j],
                            depth,
                            Ok::<Node, Error<E>>(done[j]),
                        )
                    &&& expansion(inc, node.children[k], depth, Err(e))
                },
        }
    }
}

/// Every tree that the resolver gives is sound.
pub open spec fn sound_resolver<E, F: Fn(String) -> Result<Ast, E>>(inc: F) -> bool {
    forall|t: String, r: Result<Ast, E>|
        #[trigger] call_ensures(inc, (t, ), r) && r is Ok ==> r->Ok_0@.sound()
}

/// The model of the result of an expansion.
pub open spec fn result_view<E>(res: Result<Ast, Error<E>>) -> Result<Node, Error<E>> {
    match res {
        Ok(a) => Ok(a@),
        Err(e) => Err(e),
    }
}

impl Ast {
    /// Expands the tree with the resolver `inc`, going at most `depth`
    /// inclusions deep.
    pub fn expand_within<E, F: Fn(String) -> Result<Ast, E>>(self, inc: &F, depth: usize) -> (res:
        Result<Ast, Error<E>>)
        requires
            forall|t: String| call_requires(*inc, (t, )),
        ensures
            expansion(*inc, self@, depth as nat, result_view(res)),
        decreases depth, self,
    {
        let ghost node = self@;
        let Ast { children, id, element, class, attrs } = self;
        if str_eq(element.as_str(), ":include") && id.is_some() {
            if depth == 0 {
                return Err(Error::Depth);
            }
            let target = id.unwrap();
            let r = inc(target);
            assert(resolves(*inc, node.id->0, r));
            match r {
                Ok(sub) => sub.expand_within(inc, depth - 1),
                Err(e) => Err(Error::Include(e)),
            }
        } else {
            proof {
                lemma_trees_view(children@);
            }
            let mut rest = children;
            let mut pending: Vec<Ast> = Vec::new();
            while rest.len() > 0
                invariant
                    pending@.len() + rest@.len() == children@.len(),
                    forall|j: int| 0 <= j < rest@.len() ==> rest@[j] == children@[j],
                    forall|j: int|
                        0 <= j < pending@.len() ==> pending@[j] == children@[children@.len() - 1
                            - j],
                decreases rest@.len(),
            {
                let last = rest.pop().unwrap();
                pending.push(last);
            }
            let mut out: Vec<Ast> = Vec::new();
            while pending.len() > 0
                invariant
                    forall|t: String| call_requires(*inc, (t, )),
                    node == self@,
                    !node.is_include(),
                    node.children == trees_view(children@),
                    node.children.len() == children@.len(),
                    children == self.children,
                    pending@.len() + out@.len() == children@.len(),
                    forall|j: int|
                        0 <= j < pending@.len() ==> pending@[j] == children@[children@.len() - 1
                            - j],
                    forall|j: int|
                        0 <= j < out@.len() ==> expansion(
                            *inc,
                            #[trigger] node.children[j],
                            depth as nat,
                            Ok(out@[j]@),
                        ),
                decreases pending@.len(),
            {
                let ghost k = out@.len() as int;
                let child = pending.pop().unwrap();
                proof {
                    lemma_trees_view(children@);
                    assert(child == children@[k]);
                    assert(child@ == node.children[k]);
                }
                match child.expand_within(inc, depth) {
                    Ok(c) => {
                        out.push(c);
                    },
                    Err(e) => {
                        proof {
                            let failed: Result<Node, Error<E>> = Err(e);
                            let done = trees_view(out@);
                            lemma_trees_view(out@);
                            assert(0 <= k < node.children.len());
                            assert(done.len() == k);
                            assert(expansion(*inc, node.children[k], depth as nat, failed));
                            assert forall|j: int| 0 <= j < k implies expansion(
                                *inc,
                                #[trigger] node.children[j],
                                depth as nat,
                                Ok::<Node, Error<E>>(done[j]),
                            ) by {
                                assert(done[j] == out@[j]@);
                            }
                            assert(expansion(*inc, node, depth as nat, failed));
                        }
                        return Err(e);
                    },
                }
            }
            let res = Ast { children: out, id, element, class, attrs };
            proof {
                lemma_trees_view(out@);
                lemma_trees_view(children@);
                assert(res@ == node.with_children(res@.children));
            }
            Ok(res)
        }
    }

    /// Expands the tree with the resolver `inc`: every inclusion is replaced
    /// by what the resolver gives for its target, itself expanded. The first
    /// error of the resolver ends the expansion.
    ///
    /// A tree without inclusions comes back as it is, and a tree that comes
    /// back holds no inclusion.
    pub fn expand<E, F: Fn(String) -> Result<Ast, E>>(self, inc: F) -> (res: Result<
        Ast,
        Error<E>,
    >)
        requires
            forall|t: String| call_requires(inc, (t, )),
        ensures
            expansion(inc, self@, usize::MAX as nat, result_view(res)),
            res is Ok ==> res->Ok_0@.include_free(),
            res is Ok && self@.sound() && sound_resolver(inc) ==> res->Ok_0@.renderable(),
            self@.include_free() ==> res is Ok && res->Ok_0@ == self@,
    {
        let res = self.expand_within(&inc, usize::MAX);
        proof {
            if res is Ok {
                lemma_expanded_is_include_free(inc, self@, usize::MAX as nat, res->Ok_0@);
                if self@.sound() && sound_resolver(inc) {
                    lemma_expanded_is_sound(inc, self@, usize::MAX as nat, res->Ok_0@);
                    crate::laws::lemma_sound_tree_renders(res->Ok_0@);
                }
            }
            if self@.include_free() {
                lemma_expansion_without_includes(
                    inc,
                    self@,
                    usize::MAX as nat,
                    result_view(res),
                );
            }
        }
        res
    }
}

/// A tree that an expansion gives holds no inclusion, however deep the
/// inclusions were nested.
pub proof fn lemma_expanded_is_include_free<E, F: Fn(String) -> Result<Ast, E>>(
    inc: F,
    node: Node,
    depth: nat,
    out: Node,
)
    requires
        expansion(inc, node, depth, Ok::<Node, Error<E>>(out)),
    ensures
        out.include_free(),
    decreases depth, node,
{
    let res = Ok::<Node, Error<E>>(out);
    if node.is_include() {
        let r = choose|r: Result<Ast, E>| #[trigger]
            resolves(inc, node.id->0, r) && match r {
                Ok(sub) => expansion(inc, sub@, (depth - 1) as nat, res),
                Err(e) => res == Err::<Node, Error<E>>(Error::Include(e)),
            };
        lemma_expanded_is_include_free(inc, r->Ok_0@, (depth - 1) as nat, out);
    } else {
        assert forall|i: int| 0 <= i < out.children.len() implies (
        #[trigger] out.children[i]).include_free() by {
            assert(expansion(inc, node.children[i], depth, Ok::<Node, Error<E>>(out.children[i])));
            lemma_expanded_is_include_free(inc, node.children[i], depth, out.children[i]);
        }
    }
}

/// Expanding a sound tree with a resolver that gives sound trees gives a
/// sound tree.
pub proof fn lemma_expanded_is_sound<E, F: Fn(String) -> Result<Ast, E>>(
    inc: F,
    node: Node,
    depth: nat,
    out: Node,
)
    requires
        node.sound(),
        sound_resolver(inc),
        expansion(inc, node, depth, Ok::<Node, Error<E>>(out)),
    ensures
        out.sound(),
    decreases depth, node,
{
    let res = Ok::<Node, Error<E>>(out);
    if node.is_include() {
        let r = choose|r: Result<Ast, E>| #[trigger]
            resolves(inc, node.id->0, r) && match r {
                Ok(sub) => expansion(inc, sub@, (depth - 1) as nat, res),
                Err(e) => res == Err::<Node, Error<E>>(Error::Include(e)),
            };
        let t = choose|t: String| t@ == node.id->0 && call_ensures(inc, (t, ), r);
        assert(call_ensures(inc, (t, ), r));
        lemma_expanded_is_sound(inc, r->Ok_0@, (depth - 1) as nat, out);
    } else {
        assert forall|i: int| 0 <= i < out.children.len() implies (
        #[trigger] out.children[i]).sound() by {
            assert(node.children[i].sound());
            assert(expansion(inc, node.children[i], depth, Ok::<Node, Error<E>>(out.children[i])));
            lemma_expanded_is_sound(inc, node.children[i], depth, out.children[i]);
        }
    }
}

/// Expanding a tree without inclusions has one outcome: the tree itself.
/// The resolver is not consulted, so the outcome is the same for every
/// resolver and every depth.
pub proof fn lemma_expansion_without_includes<E, F: Fn(String) -> Result<Ast, E>>(
    inc: F,
    node: Node,
    depth: nat,
    res: Result<Node, Error<E>>,
)
    requires
        node.include_free(),
        expansion(inc, node, depth, res),
    ensures
        res == Ok::<Node, Error<E>>(node),
    decreases node,
{
    match res {
        Ok(out) => {
            assert forall|i: int| 0 <= i < node.children.len() implies out.children[i]
                == node.children[i] by {
                assert(node.children[i].include_free());
                assert(expansion(inc, node.children[i], depth, Ok::<Node, Error<E>>(out.children[i])));
                lemma_expansion_without_includes(
                    inc,
                    node.children[i],
                    depth,
                    Ok::<Node, Error<E>>(out.children[i]),
                );
            }
            assert(out.children =~= node.children);
        },
        Err(e) => {
            let (k, done) = choose|k: int, done: Seq<Node>|
                #![trigger node.children[k], done.len()]
                {
                    &&& 0 <= k < node.children.len()
                    &&& done.len() == k
                    &&& forall|j: int|
                        0 <= j < k ==> expansion(
                            inc,
                            #[trigger] node.children[j],
                            depth,
                            Ok::<Node, Error<E>>(done[j]),
                        )
                    &&& expansion(inc, node.children[k], depth, Err(e))
                };
            assert(node.children[k].include_free());
            lemma_expansion_without_includes(inc, node.children[k], depth, Err(e));
        },
    }
}

} // verus!
