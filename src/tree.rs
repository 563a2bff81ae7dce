use vstd::prelude::*;

verus! {

broadcast use vstd::std_specs::vec::group_vec_axioms, vstd::seq::group_seq_axioms;

/// A key path in the abstract: its segments, in order.
pub type PathV = Seq<Seq<char>>;

/// The abstract shape of a translation tree: a leaf string, or named
/// children kept in insertion order.
pub enum Node {
    Leaf(Seq<char>),
    Branch(Seq<(Seq<char>, Node)>),
}

/// A translation document: every node is a leaf string or a named,
/// insertion-ordered collection of child documents.
#[derive(Debug)]
pub enum JsonTranslationFile {
    Value(String),
    Subtree(Vec<(String, JsonTranslationFile)>),
}

/// The position of the first child named `k`, if any.
pub open spec fn key_index(es: Seq<(Seq<char>, Node)>, k: Seq<char>) -> Option<int> {
    if exists|i: int| is_first_key(es, k, i) {
        Some(choose|i: int| is_first_key(es, k, i))
    } else {
        None
    }
}

pub open spec fn is_first_key(es: Seq<(Seq<char>, Node)>, k: Seq<char>, i: int) -> bool {
    &&& 0 <= i < es.len()
    &&& es[i].0 == k
    &&& forall|j: int| 0 <= j < i ==> es[j].0 != k
}

/// Child names are unique in every branch.
pub open spec fn node_wf(n: Node) -> bool
    decreases n,
{
    match n {
        Node::Leaf(_) => true,
        Node::Branch(es) => {
            &&& forall|i: int, j: int| 0 <= i < j < es.len() ==> #[trigger] es[i].0 != #[trigger] es[j].0
            &&& forall|i: int| 0 <= i < es.len() ==> node_wf(#[trigger] es[i].1)
        },
    }
}

/// The leaf found at exactly `path`; a leaf met before the path ends, or a
/// branch where the path ends, is no match.
pub open spec fn get_node(n: Node, path: PathV) -> Option<Seq<char>>
    decreases path.len(),
{
    match n {
        Node::Leaf(v) => if path.len() == 0 {
            Some(v)
        } else {
            None
        },
        Node::Branch(es) => if path.len() == 0 {
            None
        } else {
            match key_index(es, path[0]) {
                Some(i) => get_node(es[i].1, path.drop_first()),
                None => None,
            }
        },
    }
}

/// `path` is non-empty and no node strictly above its end is a leaf.
pub open spec fn settable(n: Node, path: PathV) -> bool
    decreases path.len(),
{
    match n {
        Node::Leaf(_) => false,
        Node::Branch(es) => path.len() >= 1 && (path.len() == 1 || match key_index(es, path[0]) {
            Some(i) => settable(es[i].1, path.drop_first()),
            None => true,
        }),
    }
}

/// The tree after putting leaf `v` at `path`: missing branches are appended
/// empty, an existing child keeps its position.
pub open spec fn set_node(n: Node, path: PathV, v: Seq<char>) -> Node
    decreases path.len(),
{
    match n {
        Node::Leaf(_) => n,
        Node::Branch(es) => if path.len() == 0 {
            n
        } else {
            let k = path[0];
            let old_child = match key_index(es, k) {
                Some(i) => es[i].1,
                None => Node::Branch(Seq::empty()),
            };
            let new_child = if path.len() == 1 {
                Node::Leaf(v)
            } else {
                set_node(old_child, path.drop_first(), v)
            };
            match key_index(es, k) {
                Some(i) => Node::Branch(es.update(i, (k, new_child))),
                None => Node::Branch(es.push((k, new_child))),
            }
        },
    }
}

/// Every path of `ps` with `p` put in front.
pub open spec fn prefixed(p: PathV, ps: Seq<PathV>) -> Seq<PathV> {
    ps.map_values(|q: PathV| p + q)
}

/// One path per leaf, depth first, children in insertion order.
pub open spec fn keys_node(n: Node) -> Seq<PathV>
    decreases n,
{
    match n {
        Node::Leaf(_) => seq![Seq::empty()],
        Node::Branch(es) => keys_entries(es),
    }
}

pub open spec fn keys_entries(es: Seq<(Seq<char>, Node)>) -> Seq<PathV>
    decreases es,
{
    if es.len() == 0 {
        Seq::empty()
    } else {
        let last = es[es.len() - 1];
        keys_entries(es.subrange(0, es.len() - 1)) + prefixed(seq![last.0], keys_node(last.1))
    }
}

impl JsonTranslationFile {
    /// The abstract tree.
    pub open spec fn node(self) -> Node
        decreases self,
    {
        match self {
            JsonTranslationFile::Value(v) => Node::Leaf(v@),
            JsonTranslationFile::Subtree(es) => Node::Branch(entries_node(es@)),
        }
    }
}

pub open spec fn entries_node(es: Seq<(String, JsonTranslationFile)>) -> Seq<(Seq<char>, Node)>
    decreases es,
{
    if es.len() == 0 {
        Seq::empty()
    } else {
        let last = es[es.len() - 1];
        entries_node(es.subrange(0, es.len() - 1)).push((last.0@, last.1.node()))
    }
}

pub proof fn lemma_entries_node(es: Seq<(String, JsonTranslationFile)>)
    ensures
        entries_node(es).len() == es.len(),
        forall|i: int|
            0 <= i < es.len() ==> #[trigger] entries_node(es)[i] == (es[i].0@, es[i].1.node()),
    decreases es.len(),
{
    if es.len() > 0 {
        lemma_entries_node(es.subrange(0, es.len() - 1));
    }
}


pub proof fn lemma_first_key(es: Seq<(Seq<char>, Node)>, k: Seq<char>, i: int)
    requires
        is_first_key(es, k, i),
    ensures
        key_index(es, k) == Some(i),
{
    let c = choose|c: int| is_first_key(es, k, c);
    assert(is_first_key(es, k, c));
    if c < i {
        assert(es[c].0 != k);
    } else if i < c {
        assert(es[i].0 != k);
    }
}

pub proof fn lemma_entries_node_update(
    es: Seq<(String, JsonTranslationFile)>,
    j: int,
    e: (String, JsonTranslationFile),
)
    requires
        0 <= j < es.len(),
    ensures
        entries_node(es.update(j, e)) == entries_node(es).update(j, (e.0@, e.1.node())),
{
    lemma_entries_node(es);
    lemma_entries_node(es.update(j, e));
    assert(entries_node(es.update(j, e)) =~= entries_node(es).update(j, (e.0@, e.1.node())));
}

pub proof fn lemma_entries_node_push(
    es: Seq<(String, JsonTranslationFile)>,
    e: (String, JsonTranslationFile),
)
    ensures
        entries_node(es.push(e)) == entries_node(es).push((e.0@, e.1.node())),
{
    lemma_entries_node(es);
    lemma_entries_node(es.push(e));
    assert(entries_node(es.push(e)) =~= entries_node(es).push((e.0@, e.1.node())));
}

pub proof fn lemma_prefixed_add(p: PathV, a: Seq<PathV>, b: Seq<PathV>)
    ensures
        prefixed(p, a + b) == prefixed(p, a) + prefixed(p, b),
{
    assert(prefixed(p, a + b) =~= prefixed(p, a) + prefixed(p, b));
}

pub proof fn lemma_prefixed_twice(p: PathV, k: Seq<char>, b: Seq<PathV>)
    ensures
        prefixed(p, prefixed(seq![k], b)) == prefixed(p.push(k), b),
{
    assert forall|i: int| 0 <= i < b.len() implies #[trigger] prefixed(p, prefixed(seq![k], b))[i]
        == prefixed(p.push(k), b)[i] by {
        assert(p + (seq![k] + b[i]) =~= p.push(k) + b[i]);
    }
    assert(prefixed(p, prefixed(seq![k], b)) =~= prefixed(p.push(k), b));
}

/// The position of the child named `k` in `es`, the first one if several are.
fn find_child(es: &Vec<(String, JsonTranslationFile)>, k: &String) -> (r: Option<usize>)
    ensures
        r matches Some(i) ==> i < es.len() && key_index(entries_node(es@), k@) == Some(i as int),
        r is None ==> key_index(entries_node(es@), k@) is None,
{
    proof {
        lemma_entries_node(es@);
    }
    let ghost ens = entries_node(es@);
    let mut i: usize = 0;
    while i < es.len()
        invariant
            i <= es.len(),
            ens == entries_node(es@),
            ens.len() == es.len(),
            forall|j: int| 0 <= j < es.len() ==> #[trigger] ens[j] == (es@[j].0@, es@[j].1.node()),
            forall|j: int| 0 <= j < i ==> ens[j].0 != k@,
        decreases es.len() - i,
    {
        if es[i].0 == *k {
            proof {
                lemma_first_key(ens, k@, i as int);
            }
            return Some(i);
        }
        i += 1;
    }
    assert(!exists|c: int| is_first_key(ens, k@, c));
    None
}

/// A copy of a key path.
pub(crate) fn copy_path(p: &Vec<String>) -> (r: Vec<String>)
    ensures
        r.deep_view() == p.deep_view(),
{
    let mut r: Vec<String> = Vec::new();
    let mut i: usize = 0;
    while i < p.len()
        invariant
            i <= p.len(),
            r.len() == i,
            forall|j: int| 0 <= j < i ==> #[trigger] r@[j]@ == p@[j]@,
        decreases p.len() - i,
    {
        let s = p[i].clone();
        r.push(s);
        i += 1;
    }
    assert(r.deep_view() =~= p.deep_view());
    r
}

impl JsonTranslationFile {
    /// The leaf stored at exactly `path`.
    pub fn get(&self, path: &[String]) -> (r: Option<&String>)
        ensures
            get_node(self.node(), path.deep_view()) == (match r {
                Some(s) => Some(s@),
                None => None::<Seq<char>>,
            }),
    {
        let ghost pv = path.deep_view();
        let mut cur = self;
        let mut i: usize = 0;
        assert(pv.subrange(0, pv.len() as int) =~= pv);
        while i < path.len()
            invariant
                i <= path.len(),
                pv == path.deep_view(),
                get_node(self.node(), pv) == get_node(cur.node(), pv.subrange(i as int, pv.len() as int)),
            decreases path.len() - i,
        {
            match cur {
                JsonTranslationFile::Value(_) => {
                    return None;
                },
                JsonTranslationFile::Subtree(es) => {
                    match find_child(es, &path[i]) {
                        None => {
                            return None;
                        },
                        Some(j) => {
                            proof {
                                lemma_entries_node(es@);
                                assert(pv.subrange(i as int, pv.len() as int).drop_first()
                                    =~= pv.subrange(i + 1, pv.len() as int));
                            }
                            cur = &es[j].1;
                        },
                    }
                },
            }
            i += 1;
        }
        match cur {
            JsonTranslationFile::Value(v) => Some(v),
            JsonTranslationFile::Subtree(_) => None,
        }
    }

    /// Whether `set` may be called with `path`: it is non-empty and does not
    /// run through a leaf.
    pub fn can_set(&self, path: &[String]) -> (r: bool)
        ensures
            r == settable(self.node(), path.deep_view()),
    {
        let ghost pv = path.deep_view();
        if path.len() == 0 {
            return false;
        }
        let mut cur = self;
        let mut i: usize = 0;
        assert(pv.subrange(0, pv.len() as int) =~= pv);
        loop
            invariant
                i < path.len(),
                pv == path.deep_view(),
                settable(self.node(), pv) == settable(cur.node(), pv.subrange(i as int, pv.len() as int)),
            decreases path.len() - i,
        {
            match cur {
                JsonTranslationFile::Value(_) => {
                    return false;
                },
                JsonTranslationFile::Subtree(es) => {
                    if i + 1 == path.len() {
                        return true;
                    }
                    match find_child(es, &path[i]) {
                        None => {
                            return true;
                        },
                        Some(j) => {
                            proof {
                                lemma_entries_node(es@);
                                assert(pv.subrange(i as int, pv.len() as int).drop_first()
                                    =~= pv.subrange(i + 1, pv.len() as int));
                            }
                            cur = &es[j].1;
                            i += 1;
                        },
                    }
                },
            }
        }
    }

    fn set_from(&mut self, path: &[String], i: usize, val: String)
        requires
            i < path.len(),
            settable(old(self).node(), path.deep_view().subrange(i as int, path.len() as int)),
        ensures
            final(self).node() == set_node(
                old(self).node(),
                path.deep_view().subrange(i as int, path.len() as int),
                val@,
            ),
        decreases path.len() - i,
    {
        let ghost pv = path.deep_view().subrange(i as int, path.len() as int);
        let mut taken = JsonTranslationFile::Value(String::new());
        std::mem::swap(self, &mut taken);
        match taken {
            JsonTranslationFile::Value(v) => {
                // not reached: no path is settable through a leaf
                *self = JsonTranslationFile::Value(v);
            },
            JsonTranslationFile::Subtree(mut es) => {
                let ghost old_es = es@;
                let ghost ens = entries_node(old_es);
                let k = path[i].clone();
                proof {
                    lemma_entries_node(old_es);
                    assert(pv[0] == k@);
                    assert(old(self).node() == Node::Branch(ens));
                }
                if i + 1 == path.len() {
                    let leaf = JsonTranslationFile::Value(val);
                    assert(leaf.node() == Node::Leaf(val@));
                    match find_child(&es, &k) {
                        Some(j) => {
                            proof {
                                lemma_entries_node_update(old_es, j as int, (k, leaf));
                                assert(set_node(Node::Branch(ens), pv, val@) == Node::Branch(
                                    ens.update(j as int, (k@, Node::Leaf(val@))),
                                ));
                            }
                            es.set(j, (k, leaf));
                        },
                        None => {
                            proof {
                                lemma_entries_node_push(old_es, (k, leaf));
                                assert(set_node(Node::Branch(ens), pv, val@) == Node::Branch(
                                    ens.push((k@, Node::Leaf(val@))),
                                ));
                            }
                            es.push((k, leaf));
                        },
                    }
                    *self = JsonTranslationFile::Subtree(es);
                } else {
                    let found = find_child(&es, &k);
                    let ghost old_child = match key_index(ens, k@) {
                        Some(c) => ens[c].1,
                        None => Node::Branch(Seq::empty()),
                    };
                    let j = match found {
                        Some(j) => j,
                        None => {
                            let fresh = (k.clone(), JsonTranslationFile::Subtree(Vec::new()));
                            proof {
                                lemma_entries_node_push(old_es, fresh);
                                assert(entries_node(Seq::<(String, JsonTranslationFile)>::empty())
                                    =~= Seq::empty());
                                assert(fresh.1.node() == Node::Branch(Seq::empty()));
                            }
                            es.push(fresh);
                            es.len() - 1
                        },
                    };
                    let ghost mid_es = es@;
                    proof {
                        lemma_entries_node(mid_es);
                        assert(pv.drop_first() =~= path.deep_view().subrange(i + 1, path.len() as int));
                        assert(mid_es[j as int].1.node() == old_child);
                        assert(settable(old_child, pv.drop_first()));
                    }
                    let mut entry = (String::new(), JsonTranslationFile::Value(String::new()));
                    es.set_and_swap(j, &mut entry);
                    entry.1.set_from(path, i + 1, val);
                    proof {
                        lemma_entries_node_update(mid_es, j as int, entry);
                        let new_child = set_node(old_child, pv.drop_first(), val@);
                        assert(entry.1.node() == new_child);
                        assert(entry.0@ == k@);
                        match found {
                            Some(c) => {
                                assert(set_node(Node::Branch(ens), pv, val@) == Node::Branch(
                                    ens.update(c as int, (k@, new_child)),
                                ));
                            },
                            None => {
                                assert(entries_node(mid_es) == ens.push((k@, Node::Branch(Seq::empty()))));
                                assert(set_node(Node::Branch(ens), pv, val@) == Node::Branch(
                                    ens.push((k@, new_child)),
                                ));
                                assert(ens.push((k@, Node::Branch(Seq::empty()))).update(j as int, (k@, new_child))
                                    =~= ens.push((k@, new_child)));
                            },
                        }
                    }
                    let ghost done_entry = entry;
                    es.set_and_swap(j, &mut entry);
                    assert(es@ =~= mid_es.update(j as int, done_entry));
                    *self = JsonTranslationFile::Subtree(es);
                }
                assert(self.node() == set_node(old(self).node(), pv, val@));
            },
        }
    }

    /// Puts leaf `val` at `path`, creating the branches on the way that are
    /// missing.
    pub fn set(&mut self, path: &[String], val: String)
        requires
            settable(old(self).node(), path.deep_view()),
        ensures
            final(self).node() == set_node(old(self).node(), path.deep_view(), val@),
            node_wf(old(self).node()) ==> node_wf(final(self).node()),
    {
        proof {
            if node_wf(self.node()) {
                lemma_set_keeps_wf(self.node(), path.deep_view(), val@);
            }
        }
        assert(path.deep_view().subrange(0, path.len() as int) =~= path.deep_view());
        self.set_from(path, 0, val);
    }

    fn collect_keys(&self, prefix: &mut Vec<String>, out: &mut Vec<Vec<String>>)
        ensures
            final(prefix).deep_view() == old(prefix).deep_view(),
            final(out).deep_view() == old(out).deep_view() + prefixed(
                old(prefix).deep_view(),
                keys_node(self.node()),
            ),
        decreases self,
    {
        let ghost pre = prefix.deep_view();
        let ghost out0 = out.deep_view();
        match self {
            JsonTranslationFile::Value(_) => {
                let p = copy_path(prefix);
                out.push(p);
                assert(prefixed(pre, keys_node(self.node())) =~= seq![pre]) by {
                    assert(pre + Seq::<Seq<char>>::empty() =~= pre);
                }
                assert(out.deep_view() =~= out0 + seq![pre]);
            },
            JsonTranslationFile::Subtree(es) => {
                let ghost ens = entries_node(es@);
                proof {
                    lemma_entries_node(es@);
                    assert(ens.subrange(0, 0) =~= Seq::empty());
                    assert(prefixed(pre, Seq::empty()) =~= Seq::empty());
                    assert(out0 + Seq::<PathV>::empty() =~= out0);
                }
                let mut i: usize = 0;
                while i < es.len()
                    invariant
                        i <= es.len(),
                        ens == entries_node(es@),
                        ens.len() == es.len(),
                        *self == JsonTranslationFile::Subtree(*es),
                        forall|j: int| 0 <= j < es.len() ==> #[trigger] ens[j] == (es@[j].0@, es@[j].1.node()),
                        prefix.deep_view() == pre,
                        out.deep_view() == out0 + prefixed(pre, keys_entries(ens.subrange(0, i as int))),
                    decreases es.len() - i,
                {
                    let k = es[i].0.clone();
                    prefix.push(k);
                    assert(prefix.deep_view() =~= pre.push(es@[i as int].0@));
                    proof {
                        let me = *self;
                        let v = me->Subtree_0;
                        assert(v == *es);
                        assert(decreases_to!(v => v@));
                        assert(decreases_to!(v@ => v@[i as int]));
                        assert(decreases_to!(v@[i as int] => v@[i as int].1));
                        assert(decreases_to!(me => v@[i as int].1));
                    }
                    es[i].1.collect_keys(prefix, out);
                    let ghost mid = prefix@;
                    let ghost mid_dv = prefix.deep_view();
                    prefix.pop();
                    assert(prefix@ == mid.drop_last());
                    assert forall|j: int| 0 <= j < prefix.len() implies #[trigger] prefix@[j]@ == pre[j] by {
                        assert(mid_dv[j] == mid[j]@);
                        assert(mid_dv[j] == pre.push(es@[i as int].0@)[j]);
                    }
                    assert(prefix.deep_view() =~= pre);
                    proof {
                        let s = ens.subrange(0, i + 1);
                        assert(s.subrange(0, i as int) =~= ens.subrange(0, i as int));
                        lemma_prefixed_add(
                            pre,
                            keys_entries(ens.subrange(0, i as int)),
                            prefixed(seq![ens[i as int].0], keys_node(ens[i as int].1)),
                        );
                        lemma_prefixed_twice(pre, ens[i as int].0, keys_node(ens[i as int].1));
                        assert(out.deep_view() =~= out0 + prefixed(pre, keys_entries(s)));
                    }
                    i += 1;
                }
                assert(ens.subrange(0, es.len() as int) =~= ens);
            },
        }
    }

    /// A deep copy.
    pub fn duplicate(&self) -> (r: Self)
        ensures
            r.node() == self.node(),
        decreases self,
    {
        match self {
            JsonTranslationFile::Value(v) => JsonTranslationFile::Value(v.clone()),
            JsonTranslationFile::Subtree(es) => {
                let mut out: Vec<(String, JsonTranslationFile)> = Vec::new();
                let mut i: usize = 0;
                proof {
                    lemma_entries_node(es@);
                }
                while i < es.len()
                    invariant
                        i <= es.len(),
                        *self == JsonTranslationFile::Subtree(*es),
                        out.len() == i,
                        forall|j: int| 0 <= j < i ==> #[trigger] out@[j].0@ == es@[j].0@ && out@[j].1.node() == es@[j].1.node(),
                    decreases es.len() - i,
                {
                    proof {
                        let me = *self;
                        let v = me->Subtree_0;
                        assert(decreases_to!(v => v@));
                        assert(decreases_to!(v@ => v@[i as int]));
                        assert(decreases_to!(v@[i as int] => v@[i as int].1));
                        assert(decreases_to!(me => v@[i as int].1));
                    }
                    let child = es[i].1.duplicate();
                    out.push((es[i].0.clone(), child));
                    i += 1;
                }
                proof {
                    lemma_entries_node(out@);
                    assert(entries_node(out@) =~= entries_node(es@));
                }
                JsonTranslationFile::Subtree(out)
            },
        }
    }

    /// Every path to a leaf, depth first, children in insertion order.
    pub fn keys(&self) -> (r: Vec<Vec<String>>)
        ensures
            r.deep_view() == keys_node(self.node()),
    {
        let mut prefix: Vec<String> = Vec::new();
        let mut out: Vec<Vec<String>> = Vec::new();
        self.collect_keys(&mut prefix, &mut out);
        assert(prefixed(Seq::empty(), keys_node(self.node())) =~= keys_node(self.node())) by {
            assert forall|i: int| 0 <= i < keys_node(self.node()).len() implies
                Seq::<Seq<char>>::empty() + #[trigger] keys_node(self.node())[i] == keys_node(self.node())[i] by {
                assert(Seq::<Seq<char>>::empty() + keys_node(self.node())[i] =~= keys_node(self.node())[i]);
            }
        }
        assert(out.deep_view() =~= keys_node(self.node()));
        out
    }
}

impl Default for JsonTranslationFile {
    /// An empty branch.
    fn default() -> (r: Self)
        ensures
            r.node() == Node::Branch(Seq::empty()),
            node_wf(r.node()),
    {
        let r = JsonTranslationFile::Subtree(Vec::new());
        assert(entries_node(Seq::<(String, JsonTranslationFile)>::empty()) =~= Seq::empty());
        r
    }
}


pub proof fn lemma_key_index_none(es: Seq<(Seq<char>, Node)>, k: Seq<char>, j: int)
    requires
        key_index(es, k) is None,
        0 <= j < es.len(),
    ensures
        es[j].0 != k,
    decreases j,
{
    if es[j].0 == k {
        if forall|a: int| 0 <= a < j ==> es[a].0 != k {
            assert(is_first_key(es, k, j));
        } else {
            let a = choose|a: int| 0 <= a < j && es[a].0 == k;
            lemma_key_index_none(es, k, a);
        }
    }
}

/// The child named `k` after `es` is updated at `k`'s position, or after
/// `k` is appended where it was absent, is the new entry.
pub proof fn lemma_key_index_after_write(es: Seq<(Seq<char>, Node)>, k: Seq<char>, c: Node)
    ensures
        key_index(es, k) matches Some(i) ==> key_index(es.update(i, (k, c)), k) == Some(i),
        key_index(es, k) is None ==> key_index(es.push((k, c)), k) == Some(es.len() as int),
{
    match key_index(es, k) {
        Some(i) => {
            assert(is_first_key(es, k, i));
            assert(is_first_key(es.update(i, (k, c)), k, i));
            lemma_first_key(es.update(i, (k, c)), k, i);
        },
        None => {
            assert forall|j: int| 0 <= j < es.len() implies #[trigger] es.push((k, c))[j].0 != k by {
                lemma_key_index_none(es, k, j);
            }
            assert(is_first_key(es.push((k, c)), k, es.len() as int));
            lemma_first_key(es.push((k, c)), k, es.len() as int);
        },
    }
}

/// Setting a leaf and then reading its path gives the leaf back.
pub proof fn lemma_set_then_get(n: Node, path: PathV, v: Seq<char>)
    requires
        settable(n, path),
    ensures
        get_node(set_node(n, path, v), path) == Some(v),
    decreases path.len(),
{
    if let Node::Branch(es) = n {
        let k = path[0];
        let old_child = match key_index(es, k) {
            Some(i) => es[i].1,
            None => Node::Branch(Seq::empty()),
        };
        let new_child = if path.len() == 1 {
            Node::Leaf(v)
        } else {
            set_node(old_child, path.drop_first(), v)
        };
        lemma_key_index_after_write(es, k, new_child);
        if path.len() > 1 {
            if key_index(es, k) is None {
                assert(!exists|i: int| is_first_key(Seq::<(Seq<char>, Node)>::empty(), path.drop_first()[0], i));
            }
            lemma_set_then_get(old_child, path.drop_first(), v);
        }
    }
}

/// The empty tree has no keys.
pub proof fn lemma_empty_tree_has_no_keys()
    ensures
        keys_node(Node::Branch(Seq::empty())).len() == 0,
{
}


/// Setting a leaf keeps child names unique.
pub proof fn lemma_set_keeps_wf(n: Node, path: PathV, v: Seq<char>)
    requires
        node_wf(n),
        settable(n, path),
    ensures
        node_wf(set_node(n, path, v)),
    decreases path.len(),
{
    if let Node::Branch(es) = n {
        let k = path[0];
        let old_child = match key_index(es, k) {
            Some(i) => es[i].1,
            None => Node::Branch(Seq::empty()),
        };
        if path.len() > 1 {
            if key_index(es, k) is None {
                assert(!exists|i: int| is_first_key(Seq::<(Seq<char>, Node)>::empty(), path.drop_first()[0], i));
            }
            lemma_set_keeps_wf(old_child, path.drop_first(), v);
        }
        let new_child = if path.len() == 1 {
            Node::Leaf(v)
        } else {
            set_node(old_child, path.drop_first(), v)
        };
        match key_index(es, k) {
            Some(i) => {
                assert(is_first_key(es, k, i));
                let es2 = es.update(i, (k, new_child));
                assert forall|a: int, b: int| 0 <= a < b < es2.len() implies #[trigger] es2[a].0 != #[trigger] es2[b].0 by {
                    assert(es2[a].0 == es[a].0 && es2[b].0 == es[b].0);
                }
                assert(node_wf(new_child));
                assert forall|a: int| 0 <= a < es2.len() implies node_wf(#[trigger] es2[a].1) by {
                    if a != i {
                        assert(es2[a].1 == es[a].1);
                    }
                }
                assert(set_node(n, path, v) == Node::Branch(es2));
            },
            None => {
                let es2 = es.push((k, new_child));
                assert forall|a: int, b: int| 0 <= a < b < es2.len() implies #[trigger] es2[a].0 != #[trigger] es2[b].0 by {
                    if b == es.len() {
                        lemma_key_index_none(es, k, a);
                    }
                }
                assert(node_wf(new_child));
                assert forall|a: int| 0 <= a < es2.len() implies node_wf(#[trigger] es2[a].1) by {
                    if a < es.len() {
                        assert(es2[a].1 == es[a].1);
                    }
                }
                assert(set_node(n, path, v) == Node::Branch(es2));
            },
        }
    }
}


/// `p` runs through child `i` of `es` to a key of that child.
pub open spec fn key_through(es: Seq<(Seq<char>, Node)>, p: PathV, i: int) -> bool {
    &&& 0 <= i < es.len()
    &&& p.len() > 0
    &&& p[0] == es[i].0
    &&& keys_node(es[i].1).contains(p.drop_first())
}

pub proof fn lemma_keys_entries_contains(es: Seq<(Seq<char>, Node)>, p: PathV)
    ensures
        keys_entries(es).contains(p) <==> exists|i: int| key_through(es, p, i),
    decreases es.len(),
{
    if es.len() > 0 {
        let init = es.subrange(0, es.len() - 1);
        let last = es[es.len() - 1];
        let a = keys_entries(init);
        let b = prefixed(seq![last.0], keys_node(last.1));
        lemma_keys_entries_contains(init, p);
        assert(keys_entries(es) == a + b);
        if (a + b).contains(p) {
            let j = choose|j: int| 0 <= j < (a + b).len() && (a + b)[j] == p;
            if j < a.len() {
                assert(a.contains(p));
                let i = choose|i: int| key_through(init, p, i);
                assert(key_through(es, p, i));
            } else {
                let q = keys_node(last.1)[j - a.len()];
                assert(p == seq![last.0] + q);
                assert(p.drop_first() =~= q);
                assert(keys_node(last.1).contains(q));
                assert(key_through(es, p, es.len() - 1));
            }
        }
        if exists|i: int| key_through(es, p, i) {
            let i = choose|i: int| key_through(es, p, i);
            if i < es.len() - 1 {
                assert(key_through(init, p, i));
                let j = choose|j: int| 0 <= j < a.len() && a[j] == p;
                assert((a + b)[j] == p);
            } else {
                let q = p.drop_first();
                let j = choose|j: int| 0 <= j < keys_node(last.1).len() && keys_node(last.1)[j] == q;
                assert(seq![last.0] + q =~= p);
                assert(b[j] == p);
                assert((a + b)[a.len() + j] == p);
            }
        }
    }
}

/// In a tree whose branches have unique child names, the paths that `keys`
/// lists are exactly the paths at which `get` finds a leaf.
pub proof fn lemma_keys_match_get(n: Node, p: PathV)
    requires
        node_wf(n),
    ensures
        keys_node(n).contains(p) <==> get_node(n, p) is Some,
    decreases n,
{
    match n {
        Node::Leaf(_) => {
            if p.len() == 0 {
                assert(keys_node(n)[0] == p);
            } else {
                assert(!keys_node(n).contains(p));
            }
        },
        Node::Branch(es) => {
            lemma_keys_entries_contains(es, p);
            if exists|i: int| key_through(es, p, i) {
                let i = choose|i: int| key_through(es, p, i);
                assert(is_first_key(es, p[0], i));
                lemma_first_key(es, p[0], i);
                lemma_keys_match_get(es[i].1, p.drop_first());
            }
            if get_node(n, p) is Some {
                let i = key_index(es, p[0])->0;
                assert(is_first_key(es, p[0], i));
                lemma_keys_match_get(es[i].1, p.drop_first());
                assert(key_through(es, p, i));
            }
        },
    }
}

} // verus!
