//! Tree construction: an explicit stack of open elements turns the repaired
//! tokens into a forest.
use vstd::prelude::*;
use crate::dom::{keys_unique, lemma_view_nodes_push, view_nodes, AttrsModel, ElementData, Node, SNode};
use crate::parser::{token_keys_unique, HTMLParser};
use crate::token::{view_tokens, HTMLToken, SToken};

verus! {

/// Model of an element under construction: name, attributes, children so far.
pub type Frame = (Seq<char>, AttrsModel, Seq<SNode>);

/// The builder's state: the open elements (bottom first) and the finished roots.
pub struct BuildState {
    pub frames: Seq<Frame>,
    pub roots: Seq<SNode>,
}

pub open spec fn frame_node(f: Frame) -> SNode {
    SNode::Element(f.0, f.1, f.2)
}

/// `node` added as the last child of the innermost open element, or as a root.
pub open spec fn attach(st: BuildState, node: SNode) -> BuildState {
    if st.frames.len() == 0 {
        BuildState { frames: st.frames, roots: st.roots.push(node) }
    } else {
        let top = st.frames.last();
        BuildState {
            frames: st.frames.update(st.frames.len() - 1, (top.0, top.1, top.2.push(node))),
            roots: st.roots,
        }
    }
}

/// The builder at one token.
pub open spec fn build_step(st: BuildState, t: SToken) -> BuildState {
    match t {
        SToken::Open(n, a) => BuildState { frames: st.frames.push((n, a, Seq::empty())), roots: st.roots },
        SToken::Close(_) => if st.frames.len() == 0 {
            st
        } else {
            attach(
                BuildState { frames: st.frames.drop_last(), roots: st.roots },
                frame_node(st.frames.last()),
            )
        },
        SToken::SelfClose(n, a) => if n.len() == 0 {
            st
        } else {
            attach(st, SNode::Element(n, a, Seq::empty()))
        },
        SToken::Text(t) => attach(st, SNode::Text(t)),
    }
}

/// The builder after the first `n` tokens.
pub open spec fn build_scan(toks: Seq<SToken>, n: int) -> BuildState
    decreases n,
{
    if n <= 0 {
        BuildState { frames: Seq::empty(), roots: Seq::empty() }
    } else {
        build_step(build_scan(toks, n - 1), toks[n - 1])
    }
}

/// The forest built from `toks`: the roots, then the elements left open, bottom first.
pub open spec fn build_forest(toks: Seq<SToken>) -> Seq<SNode> {
    let st = build_scan(toks, toks.len() as int);
    st.roots + st.frames.map_values(|f: Frame| frame_node(f))
}

pub open spec fn frame_of(e: ElementData) -> Frame {
    (e.tag_name@, e.attributes@, view_nodes(e.children@))
}

pub open spec fn frames_view(fs: Seq<ElementData>) -> Seq<Frame> {
    fs.map_values(|e: ElementData| frame_of(e))
}

/// Adds `node` as the last child of the innermost open element, or as a root.
fn attach_node(frames: &mut Vec<ElementData>, roots: &mut Vec<Node>, node: Node)
    ensures
        attach(BuildState { frames: frames_view(old(frames)@), roots: view_nodes(old(roots)@) }, node@)
            == (BuildState { frames: frames_view(final(frames)@), roots: view_nodes(final(roots)@) }),
{
    let ghost nv = node@;
    match frames.pop() {
        Some(mut top) => {
            let ghost kids = top.children@;
            top.children.push(node);
            proof {
                lemma_view_nodes_push(kids, node);
            }
            frames.push(top);
            assert(frames_view(frames@) =~= frames_view(old(frames)@).update(
                frames.len() - 1,
                (top.tag_name@, top.attributes@, view_nodes(kids).push(nv)),
            ));
        },
        None => {
            let ghost before = roots@;
            roots.push(node);
            proof {
                lemma_view_nodes_push(before, node);
            }
        },
    }
}

impl HTMLParser {
    /// Builds the forest of `tokens`. Elements still open at the end are
    /// added to the roots, bottom first.
    pub fn create_dom_tree(&self, tokens: Vec<HTMLToken>) -> (r: Vec<Node>)
        ensures
            view_nodes(r@) == build_forest(view_tokens(tokens@)),
    {
        let ghost toks = view_tokens(tokens@);
        let n = tokens.len();
        let mut frames: Vec<ElementData> = Vec::new();
        let mut roots: Vec<Node> = Vec::new();
        let mut i: usize = 0;
        assert(frames_view(frames@) =~= Seq::<Frame>::empty());
        assert(view_nodes(roots@) =~= Seq::<SNode>::empty());
        while i < n
            invariant
                n == tokens.len(),
                toks == view_tokens(tokens@),
                0 <= i <= n,
                build_scan(toks, i as int) == (BuildState {
                    frames: frames_view(frames@),
                    roots: view_nodes(roots@),
                }),
            decreases n - i,
        {
            assert(toks[i as int] == tokens@[i as int]@);
            match &tokens[i] {
                HTMLToken::OpenTag(m) => {
                    let tag = m.duplicate();
                    let e = ElementData { tag_name: tag.name, attributes: tag.attributes, children: Vec::new() };
                    let ghost before = frames@;
                    frames.push(e);
                    assert(view_nodes(e.children@) =~= Seq::<SNode>::empty());
                    assert(frames_view(frames@) =~= frames_view(before).push(frame_of(e)));
                },
                HTMLToken::CloseTag(_) => {
                    let ghost before = frames@;
                    match frames.pop() {
                        Some(e) => {
                            assert(frames_view(frames@) =~= frames_view(before).drop_last());
                            attach_node(&mut frames, &mut roots, Node::Element(e));
                        },
                        None => {},
                    }
                },
                HTMLToken::SelfClose(m) => {
                    if !m.name.as_str().is_empty() {
                        let tag = m.duplicate();
                        let e = ElementData { tag_name: tag.name, attributes: tag.attributes, children: Vec::new() };
                        assert(view_nodes(e.children@) =~= Seq::<SNode>::empty());
                        attach_node(&mut frames, &mut roots, Node::Element(e));
                    }
                },
                HTMLToken::Text(t) => {
                    attach_node(&mut frames, &mut roots, Node::text(t.clone()));
                },
            }
            i += 1;
        }
        let ghost fv = frames_view(frames@);
        let ghost rv = view_nodes(roots@);
        let ghost total = frames.len();
        while frames.len() > 0
            invariant
                frames.len() <= total,
                fv.len() == total,
                frames_view(frames@) == fv.subrange(total - frames.len(), total as int),
                view_nodes(roots@) == rv + fv.subrange(0, total - frames.len()).map_values(
                    |f: Frame| frame_node(f),
                ),
            decreases frames.len(),
        {
            let ghost before = roots@;
            let ghost fbefore = frames@;
            let e = frames.remove(0);
            roots.push(Node::Element(e));
            proof {
                lemma_view_nodes_push(before, Node::Element(e));
                assert(frames_view(fbefore)[0] == frame_of(e));
                assert forall|k: int| 0 <= k < frames.len() implies frames_view(frames@)[k] == fv.subrange(
                    total - frames.len(),
                    total as int,
                )[k] by {
                    assert(frames@[k] == fbefore[k + 1]);
                    assert(frames_view(fbefore)[k + 1] == fv.subrange(total - fbefore.len(), total as int)[k + 1]);
                }
                assert(frames_view(frames@) =~= fv.subrange(total - frames.len(), total as int));
                assert(fv.subrange(0, total - frames.len()).map_values(|f: Frame| frame_node(f))
                    =~= fv.subrange(0, total - fbefore.len()).map_values(|f: Frame| frame_node(f)).push(
                    frame_node(frame_of(e)),
                ));
            }
        }
        assert(fv.subrange(0, total as int) =~= fv);
        roots
    }
}

/// Every element in `n` names each attribute once.
pub open spec fn node_keys_unique(n: SNode) -> bool
    decreases n,
{
    match n {
        SNode::Text(_) => true,
        SNode::Element(_, a, kids) => keys_unique(a) && forall|i: int|
            0 <= i < kids.len() ==> node_keys_unique(#[trigger] kids[i]),
    }
}

pub open spec fn nodes_keys_unique(ns: Seq<SNode>) -> bool {
    forall|i: int| 0 <= i < ns.len() ==> node_keys_unique(#[trigger] ns[i])
}

pub open spec fn state_keys_unique(st: BuildState) -> bool {
    &&& forall|k: int|
        0 <= k < st.frames.len() ==> keys_unique((#[trigger] st.frames[k]).1) && nodes_keys_unique(
            st.frames[k].2,
        )
    &&& nodes_keys_unique(st.roots)
}

proof fn lemma_attach_keys_unique(st: BuildState, node: SNode)
    requires
        state_keys_unique(st),
        node_keys_unique(node),
    ensures
        state_keys_unique(attach(st, node)),
{
    let r = attach(st, node);
    if st.frames.len() == 0 {
        assert(nodes_keys_unique(r.roots)) by {
            assert forall|i: int| 0 <= i < r.roots.len() implies node_keys_unique(#[trigger] r.roots[i]) by {
                if i < st.roots.len() {
                    assert(r.roots[i] == st.roots[i]);
                }
            }
        }
    } else {
        let top = st.frames.last();
        let kids = top.2.push(node);
        assert(nodes_keys_unique(kids)) by {
            assert forall|i: int| 0 <= i < kids.len() implies node_keys_unique(#[trigger] kids[i]) by {
                if i < top.2.len() {
                    assert(kids[i] == top.2[i]);
                }
            }
        }
        assert forall|k: int| 0 <= k < r.frames.len() implies keys_unique((#[trigger] r.frames[k]).1)
            && nodes_keys_unique(r.frames[k].2) by {
            if k < st.frames.len() - 1 {
                assert(r.frames[k] == st.frames[k]);
            }
        }
    }
}

proof fn lemma_build_scan_keys_unique(toks: Seq<SToken>, n: int)
    requires
        0 <= n <= toks.len(),
        forall|i: int| 0 <= i < toks.len() ==> token_keys_unique(#[trigger] toks[i]),
    ensures
        state_keys_unique(build_scan(toks, n)),
    decreases n,
{
    if n > 0 {
        lemma_build_scan_keys_unique(toks, n - 1);
        let st = build_scan(toks, n - 1);
        assert(token_keys_unique(toks[n - 1]));
        match toks[n - 1] {
            SToken::Open(name, a) => {
                let r = build_scan(toks, n);
                assert forall|k: int| 0 <= k < r.frames.len() implies keys_unique((#[trigger] r.frames[k]).1)
                    && nodes_keys_unique(r.frames[k].2) by {
                    if k < st.frames.len() {
                        assert(r.frames[k] == st.frames[k]);
                    }
                }
            },
            SToken::Close(_) => {
                if st.frames.len() > 0 {
                    let inner = BuildState { frames: st.frames.drop_last(), roots: st.roots };
                    let f = st.frames.last();
                    assert(keys_unique(f.1) && nodes_keys_unique(f.2));
                    assert(node_keys_unique(frame_node(f)));
                    assert forall|k: int| 0 <= k < inner.frames.len() implies keys_unique((#[trigger] inner.frames[k]).1)
                        && nodes_keys_unique(inner.frames[k].2) by {
                        assert(inner.frames[k] == st.frames[k]);
                    }
                    lemma_attach_keys_unique(inner, frame_node(f));
                }
            },
            SToken::SelfClose(name, a) => {
                if name.len() > 0 {
                    lemma_attach_keys_unique(st, SNode::Element(name, a, Seq::empty()));
                }
            },
            SToken::Text(t) => {
                lemma_attach_keys_unique(st, SNode::Text(t));
            },
        }
    }
}

/// When every tag token names each attribute once, so does every element of
/// the forest built from the tokens.
pub proof fn lemma_forest_keys_unique(toks: Seq<SToken>)
    requires
        forall|i: int| 0 <= i < toks.len() ==> token_keys_unique(#[trigger] toks[i]),
    ensures
        nodes_keys_unique(build_forest(toks)),
{
    lemma_build_scan_keys_unique(toks, toks.len() as int);
    let st = build_scan(toks, toks.len() as int);
    let f = build_forest(toks);
    assert forall|i: int| 0 <= i < f.len() implies node_keys_unique(#[trigger] f[i]) by {
        if i < st.roots.len() {
            assert(f[i] == st.roots[i]);
        } else {
            let k = i - st.roots.len();
            assert(f[i] == frame_node(st.frames[k]));
            assert(keys_unique(st.frames[k].1) && nodes_keys_unique(st.frames[k].2));
        }
    }
}

} // verus!
