//! The nodes of the forest and their mathematical model.
use vstd::prelude::*;

verus! {

/// Model of an attribute map: (name, value) pairs in order of first insertion.
pub type AttrsModel = Seq<(Seq<char>, Seq<char>)>;

/// The first index at or after `i` whose name is `k`, or -1.
pub open spec fn key_index_from(m: AttrsModel, k: Seq<char>, i: int) -> int
    decreases m.len() - i,
{
    if i < 0 || i >= m.len() {
        -1
    } else if m[i].0 == k {
        i
    } else {
        key_index_from(m, k, i + 1)
    }
}

/// The value stored under `k`.
pub open spec fn attr_lookup(m: AttrsModel, k: Seq<char>) -> Option<Seq<char>> {
    let i = key_index_from(m, k, 0);
    if i >= 0 {
        Some(m[i].1)
    } else {
        None
    }
}

/// `m` with `k` bound to `v`: an existing entry is replaced in place, else one is appended.
pub open spec fn attr_insert(m: AttrsModel, k: Seq<char>, v: Seq<char>) -> AttrsModel {
    let i = key_index_from(m, k, 0);
    if i >= 0 {
        m.update(i, (k, v))
    } else {
        m.push((k, v))
    }
}

/// No name occurs twice.
pub open spec fn keys_unique(m: AttrsModel) -> bool {
    forall|i: int, j: int| 0 <= i < j < m.len() ==> m[i].0 != m[j].0
}

pub proof fn lemma_key_index_from(m: AttrsModel, k: Seq<char>, i: int)
    requires
        0 <= i <= m.len(),
    ensures
        ({
            let r = key_index_from(m, k, i);
            &&& r == -1 || (i <= r < m.len() && m[r].0 == k)
            &&& forall|t: int| i <= t < m.len() && (r == -1 || t < r) ==> m[t].0 != k
        }),
    decreases m.len() - i,
{
    if i < m.len() && m[i].0 != k {
        lemma_key_index_from(m, k, i + 1);
    }
}

/// Insertion keeps names unique.
pub proof fn lemma_insert_keeps_unique(m: AttrsModel, k: Seq<char>, v: Seq<char>)
    ensures
        keys_unique(m) ==> keys_unique(attr_insert(m, k, v)),
        attr_lookup(attr_insert(m, k, v), k) == Some(v),
{
    lemma_key_index_from(m, k, 0);
    let idx = key_index_from(m, k, 0);
    let r = attr_insert(m, k, v);
    lemma_key_index_from(r, k, 0);
    let j = if idx >= 0 {
        idx
    } else {
        m.len() as int
    };
    assert(r[j].0 == k);
    let found = key_index_from(r, k, 0);
    if found != j {
        if found == -1 || found > j {
            assert(r[j].0 != k);
        } else {
            assert(r[found] == m[found]);
        }
    }
}

/// An attribute map whose names are unique.
#[derive(Debug, PartialEq)]
pub struct AttrMap {
    entries: Vec<(String, String)>,
}

impl View for AttrMap {
    type V = AttrsModel;

    closed spec fn view(&self) -> AttrsModel {
        self.entries@.map_values(|e: (String, String)| (e.0@, e.1@))
    }
}

impl AttrMap {
    /// An empty map.
    pub fn new() -> (r: AttrMap)
        ensures
            r@ == Seq::<(Seq<char>, Seq<char>)>::empty(),
            keys_unique(r@),
    {
        let r = AttrMap { entries: Vec::new() };
        assert(r@ =~= Seq::<(Seq<char>, Seq<char>)>::empty());
        r
    }

    /// The number of entries.
    pub fn len(&self) -> (r: usize)
        ensures
            r == self@.len(),
    {
        self.entries.len()
    }

    /// Binds `key` to `value`, replacing an earlier value of `key`.
    pub fn insert(&mut self, key: String, value: String)
        ensures
            final(self)@ == attr_insert(old(self)@, key@, value@),
            keys_unique(old(self)@) ==> keys_unique(final(self)@),
            attr_lookup(final(self)@, key@) == Some(value@),
    {
        proof {
            lemma_insert_keeps_unique(old(self)@, key@, value@);
        }
        let ghost m = self@;
        let n = self.entries.len();
        let mut i: usize = 0;
        while i < n
            invariant
                n == self.entries.len(),
                self@ == m,
                old(self)@ == m,
                0 <= i <= n,
                key_index_from(m, key@, 0) == key_index_from(m, key@, i as int),
            decreases n - i,
        {
            if self.entries[i].0 == key {
                assert(key_index_from(m, key@, i as int) == i);
                let _replaced = self.entries.remove(i);
                self.entries.insert(i, (key, value));
                proof {
                    lemma_insert_keeps_unique(m, key@, value@);
                    assert(m[i as int].0 == key@);
                    assert(self@ =~= m.update(i as int, (key@, value@)));
                    assert(self@ == attr_insert(m, key@, value@));
                }
                return;
            }
            assert(m[i as int].0 != key@);
            i += 1;
        }
        self.entries.push((key, value));
        assert(self@ =~= m.push((key@, value@)));
    }

    /// The value bound to `key`, if any.
    pub fn get(&self, key: &String) -> (r: Option<String>)
        ensures
            match r {
                Some(v) => attr_lookup(self@, key@) == Some(v@),
                None => attr_lookup(self@, key@) is None,
            },
    {
        let n = self.entries.len();
        let mut i: usize = 0;
        while i < n
            invariant
                n == self.entries.len(),
                0 <= i <= n,
                key_index_from(self@, key@, 0) == key_index_from(self@, key@, i as int),
            decreases n - i,
        {
            if self.entries[i].0 == *key {
                assert(self@[i as int].0 == key@);
                return Some(self.entries[i].1.clone());
            }
            assert(self@[i as int].0 != key@);
            i += 1;
        }
        None
    }

    /// A copy with the same entries.
    pub fn duplicate(&self) -> (r: AttrMap)
        ensures
            r@ == self@,
    {
        let n = self.entries.len();
        let mut out: Vec<(String, String)> = Vec::new();
        let mut i: usize = 0;
        while i < n
            invariant
                n == self.entries.len(),
                0 <= i <= n,
                out@.len() == i,
                forall|k: int|
                    0 <= k < i ==> (#[trigger] out@[k]).0@ == self.entries@[k].0@ && out@[k].1@
                        == self.entries@[k].1@,
            decreases n - i,
        {
            let e = &self.entries[i];
            out.push((e.0.clone(), e.1.clone()));
            i += 1;
        }
        let r = AttrMap { entries: out };
        assert(r@ =~= self@);
        r
    }
}

/// A node of the forest.
#[derive(Debug, PartialEq)]
pub enum Node {
    Text(String),
    Element(ElementData),
}

/// An element: its tag name, attributes and children.
#[derive(Debug, PartialEq)]
pub struct ElementData {
    pub tag_name: String,
    pub attributes: AttrMap,
    pub children: Vec<Node>,
}

/// Model of a node.
pub enum SNode {
    Text(Seq<char>),
    Element(Seq<char>, AttrsModel, Seq<SNode>),
}

impl Node {
    pub open spec fn view(&self) -> SNode
        decreases self,
    {
        match self {
            Node::Text(t) => SNode::Text(t@),
            Node::Element(e) => SNode::Element(e.tag_name@, e.attributes@, view_nodes(e.children@)),
        }
    }

    /// A text node.
    pub fn text(data: String) -> (r: Node)
        ensures
            r@ == SNode::Text(data@),
    {
        Node::Text(data)
    }

    /// An element node.
    pub fn element(data: ElementData) -> (r: Node)
        ensures
            r@ == data@,
    {
        Node::Element(data)
    }
}

impl ElementData {
    pub open spec fn view(&self) -> SNode {
        SNode::Element(self.tag_name@, self.attributes@, view_nodes(self.children@))
    }
}

/// The models of a sequence of nodes.
pub open spec fn view_nodes(ns: Seq<Node>) -> Seq<SNode>
    decreases ns,
{
    if ns.len() == 0 {
        Seq::empty()
    } else {
        view_nodes(ns.drop_last()).push(ns.last().view())
    }
}

pub proof fn lemma_view_nodes_push(ns: Seq<Node>, n: Node)
    ensures
        view_nodes(ns.push(n)) == view_nodes(ns).push(n.view()),
{
    assert(ns.push(n).drop_last() =~= ns);
}

} // verus!
