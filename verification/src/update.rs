//! The document mutator: writes resolved image references back into the
//! `services` mapping, touching only the affected `image` scalars and
//! leaving order and every other node untouched.

use vstd::prelude::*;
use crate::node::{Node, NodeV, Style, node_v, nodes_v, entries_v, lemma_nodes_v,
    lemma_entries_v};
use crate::compose::{ComposeYaml, image_name};
use crate::engine::TagOutcome;
use crate::text::string_eq_str;

verus! {

/// The resolved reference of the first outcome whose declared reference
/// has this name.
pub open spec fn find_by_name(outs: Seq<TagOutcome>, name: Seq<char>) -> Option<Seq<char>>
    decreases outs,
{
    if outs.len() == 0 {
        None
    } else if image_name(outs[0].original@) == name {
        Some(outs[0].resolved@)
    } else {
        find_by_name(outs.drop_first(), name)
    }
}

/// What an `image` scalar becomes: the matching resolved reference when
/// one exists and differs, otherwise itself. The quoting style stays.
pub open spec fn apply_image_value(t: Seq<char>, st: Style, outs: Seq<TagOutcome>)
    -> NodeV {
    match find_by_name(outs, image_name(t)) {
        Some(res) => if res != t {
            NodeV::Scalar(res, st)
        } else {
            NodeV::Scalar(t, st)
        },
        None => NodeV::Scalar(t, st),
    }
}

/// What one entry of a service mapping becomes.
pub open spec fn apply_service_entry(e: (Seq<char>, NodeV), outs: Seq<TagOutcome>) -> (
    Seq<char>,
    NodeV,
) {
    if e.0 == "image"@ {
        match e.1 {
            NodeV::Scalar(t, st) => (e.0, apply_image_value(t, st, outs)),
            _ => e,
        }
    } else {
        e
    }
}

/// What one service becomes: only mapping-shaped services change, and in
/// them only the `image` entry.
pub open spec fn apply_service(v: NodeV, outs: Seq<TagOutcome>) -> NodeV {
    match v {
        NodeV::Mapping(sv) => NodeV::Mapping(
            sv.map_values(|e: (Seq<char>, NodeV)| apply_service_entry(e, outs)),
        ),
        _ => v,
    }
}

/// What the `services` mapping becomes.
pub open spec fn apply_services(ss: Seq<(Seq<char>, NodeV)>, outs: Seq<TagOutcome>) -> Seq<
    (Seq<char>, NodeV),
> {
    ss.map_values(|e: (Seq<char>, NodeV)| (e.0, apply_service(e.1, outs)))
}

/// What the whole root becomes: only the `services` entry changes.
pub open spec fn apply_root(es: Seq<(Seq<char>, NodeV)>, outs: Seq<TagOutcome>) -> Seq<
    (Seq<char>, NodeV),
> {
    es.map_values(
        |e: (Seq<char>, NodeV)|
            if e.0 == "services"@ {
                (
                    e.0,
                    match e.1 {
                        NodeV::Mapping(ss) => NodeV::Mapping(apply_services(ss, outs)),
                        _ => e.1,
                    },
                )
            } else {
                e
            },
    )
}

/// The texts of the `image` entries of one service mapping.
pub open spec fn entry_image_texts(sv: Seq<(Seq<char>, NodeV)>) -> Set<Seq<char>>
    decreases sv,
{
    if sv.len() == 0 {
        Set::empty()
    } else {
        let head = if sv[0].0 == "image"@ {
            match sv[0].1 {
                NodeV::Scalar(t, _) => Set::empty().insert(t),
                _ => Set::<Seq<char>>::empty(),
            }
        } else {
            Set::<Seq<char>>::empty()
        };
        head.union(entry_image_texts(sv.drop_first()))
    }
}

/// The image texts of every mapping-shaped service.
pub open spec fn services_image_texts(ss: Seq<(Seq<char>, NodeV)>) -> Set<Seq<char>>
    decreases ss,
{
    if ss.len() == 0 {
        Set::empty()
    } else {
        let head = match ss[0].1 {
            NodeV::Mapping(sv) => entry_image_texts(sv),
            _ => Set::<Seq<char>>::empty(),
        };
        head.union(services_image_texts(ss.drop_first()))
    }
}

/// The image texts under every `services` entry of the root.
pub open spec fn root_image_texts(es: Seq<(Seq<char>, NodeV)>) -> Set<Seq<char>>
    decreases es,
{
    if es.len() == 0 {
        Set::empty()
    } else {
        let head = if es[0].0 == "services"@ {
            match es[0].1 {
                NodeV::Mapping(ss) => services_image_texts(ss),
                _ => Set::<Seq<char>>::empty(),
            }
        } else {
            Set::<Seq<char>>::empty()
        };
        head.union(root_image_texts(es.drop_first()))
    }
}

proof fn lemma_entry_image_member(sv: Seq<(Seq<char>, NodeV)>, j: int)
    requires
        0 <= j < sv.len(),
        sv[j].0 == "image"@,
        sv[j].1 is Scalar,
    ensures
        entry_image_texts(sv).contains(sv[j].1->Scalar_0),
    decreases sv,
{
    if j == 0 {
    } else {
        lemma_entry_image_member(sv.drop_first(), j - 1);
        assert(sv.drop_first()[j - 1] == sv[j]);
    }
}

proof fn lemma_services_image_member(ss: Seq<(Seq<char>, NodeV)>, i: int, t: Seq<char>)
    requires
        0 <= i < ss.len(),
        ss[i].1 is Mapping,
        entry_image_texts(ss[i].1->Mapping_0).contains(t),
    ensures
        services_image_texts(ss).contains(t),
    decreases ss,
{
    if i == 0 {
    } else {
        lemma_services_image_member(ss.drop_first(), i - 1, t);
        assert(ss.drop_first()[i - 1] == ss[i]);
    }
}

proof fn lemma_root_image_member(es: Seq<(Seq<char>, NodeV)>, i: int, t: Seq<char>)
    requires
        0 <= i < es.len(),
        es[i].0 == "services"@,
        es[i].1 is Mapping,
        services_image_texts(es[i].1->Mapping_0).contains(t),
    ensures
        root_image_texts(es).contains(t),
    decreases es,
{
    if i == 0 {
    } else {
        lemma_root_image_member(es.drop_first(), i - 1, t);
        assert(es.drop_first()[i - 1] == es[i]);
    }
}

/// Applying an outcome set in which every resolved reference equals its
/// declared reference — and whose declared references are the document's
/// own images — leaves the document unchanged.
pub proof fn lemma_apply_identity(es: Seq<(Seq<char>, NodeV)>, outs: Seq<TagOutcome>)
    requires
        forall|i: int| 0 <= i < outs.len() ==> (#[trigger] outs[i]).resolved@ == outs[i]
            .original@,
        forall|t: Seq<char>| #[trigger] root_image_texts(es).contains(t) ==> (
        match find_by_name(outs, image_name(t)) {
            Some(res) => res == t,
            None => true,
        }),
    ensures
        apply_root(es, outs) == es,
{
    assert forall|i: int| 0 <= i < es.len() implies apply_root(es, outs)[i] == es[i] by {
        let e = es[i];
        if e.0 == "services"@ {
            match e.1 {
                NodeV::Mapping(ss) => {
                    assert forall|j: int|
                        0 <= j < ss.len() implies apply_services(ss, outs)[j] == ss[j] by {
                        let se = ss[j];
                        match se.1 {
                            NodeV::Mapping(sv) => {
                                assert forall|k: int|
                                    0 <= k < sv.len() implies sv.map_values(
                                    |x: (Seq<char>, NodeV)| apply_service_entry(x, outs),
                                )[k] == sv[k] by {
                                    let ae = sv[k];
                                    if ae.0 == "image"@ {
                                        match ae.1 {
                                            NodeV::Scalar(t, st) => {
                                                lemma_entry_image_member(sv, k);
                                                lemma_services_image_member(ss, j, t);
                                                lemma_root_image_member(es, i, t);
                                                assert(root_image_texts(es).contains(t));
                                                assert(apply_image_value(t, st, outs)
                                                    == NodeV::Scalar(t, st));
                                            },
                                            _ => {},
                                        }
                                    }
                                }
                                assert(sv.map_values(
                                    |x: (Seq<char>, NodeV)| apply_service_entry(x, outs),
                                ) =~= sv);
                            },
                            _ => {},
                        }
                    }
                    assert(apply_services(ss, outs) =~= ss);
                },
                _ => {},
            }
        }
    }
    assert(apply_root(es, outs) =~= es);
}

/// A deep copy of a tree.
pub fn clone_node(n: &Node) -> (r: Node)
    ensures
        node_v(r) == node_v(*n),
    decreases *n, 1int,
{
    match n {
        Node::Scalar(s, st) => Node::Scalar(s.clone(), *st),
        Node::Sequence(items) => Node::Sequence(clone_nodes(items)),
        Node::Mapping(es) => Node::Mapping(clone_entries(es)),
    }
}

fn clone_nodes(items: &Vec<Node>) -> (r: Vec<Node>)
    ensures
        nodes_v(r@) == nodes_v(items@),
    decreases items@, 0int,
{
    proof {
        lemma_nodes_v(items@);
    }
    let mut r: Vec<Node> = Vec::new();
    let mut i: usize = 0;
    while i < items.len()
        invariant
            0 <= i <= items@.len(),
            r@.len() == i,
            forall|j: int| 0 <= j < items@.len() ==> nodes_v(items@)[j] == node_v(
                #[trigger] items@[j],
            ),
            nodes_v(items@).len() == items@.len(),
            forall|j: int| 0 <= j < i ==> node_v(#[trigger] r@[j]) == nodes_v(items@)[j],
        decreases items@.len() - i,
    {
        let c = clone_node(&items[i]);
        r.push(c);
        i = i + 1;
    }
    proof {
        lemma_nodes_v(r@);
        assert(nodes_v(r@) =~= nodes_v(items@));
    }
    r
}

fn clone_entries(es: &Vec<(String, Node)>) -> (r: Vec<(String, Node)>)
    ensures
        entries_v(r@) == entries_v(es@),
    decreases es@, 0int,
{
    proof {
        lemma_entries_v(es@);
    }
    let mut r: Vec<(String, Node)> = Vec::new();
    let mut i: usize = 0;
    while i < es.len()
        invariant
            0 <= i <= es@.len(),
            r@.len() == i,
            forall|j: int| 0 <= j < es@.len() ==> entries_v(es@)[j] == (
                es@[j].0@,
                node_v(#[trigger] es@[j].1),
            ),
            entries_v(es@).len() == es@.len(),
            forall|j: int| 0 <= j < i ==> (#[trigger] r@[j]).0@ == entries_v(es@)[j].0
                && node_v(r@[j].1) == entries_v(es@)[j].1,
        decreases es@.len() - i,
    {
        let k = es[i].0.clone();
        let c = clone_node(&es[i].1);
        r.push((k, c));
        i = i + 1;
    }
    proof {
        lemma_entries_v(r@);
        assert(entries_v(r@) =~= entries_v(es@));
    }
    r
}

/// The resolved reference matched by name, executable side.
fn find_by_name_exec(outs: &Vec<TagOutcome>, name: &String) -> (r: Option<String>)
    ensures
        match r {
            Some(s) => find_by_name(outs@, name@) == Some(s@),
            None => find_by_name(outs@, name@) is None,
        },
{
    let ghost ovs = outs@;
    proof {
        assert(ovs.subrange(0, ovs.len() as int) =~= ovs);
    }
    let mut i: usize = 0;
    while i < outs.len()
        invariant
            0 <= i <= ovs.len(),
            ovs == outs@,
            find_by_name(ovs, name@) == find_by_name(
                ovs.subrange(i as int, ovs.len() as int),
                name@,
            ),
        decreases ovs.len() - i,
    {
        proof {
            let suf = ovs.subrange(i as int, ovs.len() as int);
            assert(suf[0] == ovs[i as int]);
            assert(suf.drop_first() =~= ovs.subrange(i + 1, ovs.len() as int));
        }
        let oname = crate::compose::image_name_exec(outs[i].original.as_str());
        if string_eq_str(&oname, name.as_str()) {
            return Some(outs[i].resolved.clone());
        }
        i = i + 1;
    }
    proof {
        assert(ovs.subrange(i as int, ovs.len() as int) =~= Seq::<TagOutcome>::empty());
    }
    None
}

/// One service entry, with its `image` scalar rewritten if an outcome
/// asks for it.
fn apply_entry_exec(k: &String, v: &Node, outs: &Vec<TagOutcome>) -> (r: (String, Node))
    ensures
        (r.0@, node_v(r.1)) == apply_service_entry((k@, node_v(*v)), outs@),
{
    let is_image = string_eq_str(k, "image");
    if is_image {
        match v {
            Node::Scalar(t, st) => {
                let name = crate::compose::image_name_exec(t.as_str());
                match find_by_name_exec(outs, &name) {
                    Some(res) => {
                        if !string_eq_str(&res, t.as_str()) {
                            (k.clone(), Node::Scalar(res, *st))
                        } else {
                            (k.clone(), Node::Scalar(t.clone(), *st))
                        }
                    },
                    None => (k.clone(), Node::Scalar(t.clone(), *st)),
                }
            },
            _ => (k.clone(), clone_node(v)),
        }
    } else {
        (k.clone(), clone_node(v))
    }
}

/// One service, with only its `image` entry possibly rewritten.
fn apply_service_exec(v: &Node, outs: &Vec<TagOutcome>) -> (r: Node)
    ensures
        node_v(r) == apply_service(node_v(*v), outs@),
{
    match v {
        Node::Mapping(sv) => {
            let ghost svv = entries_v(sv@);
            proof {
                lemma_entries_v(sv@);
            }
            let mut r: Vec<(String, Node)> = Vec::new();
            let mut i: usize = 0;
            while i < sv.len()
                invariant
                    0 <= i <= sv@.len(),
                    svv == entries_v(sv@),
                    svv.len() == sv@.len(),
                    r@.len() == i,
                    forall|j: int| 0 <= j < sv@.len() ==> #[trigger] svv[j] == (
                        sv@[j].0@,
                        node_v(sv@[j].1),
                    ),
                    forall|j: int|
                        0 <= j < i ==> ((#[trigger] r@[j]).0@, node_v(r@[j].1))
                            == apply_service_entry(svv[j], outs@),
                decreases sv@.len() - i,
            {
                let e = apply_entry_exec(&sv[i].0, &sv[i].1, outs);
                r.push(e);
                i = i + 1;
            }
            proof {
                lemma_entries_v(r@);
                assert(entries_v(r@) =~= svv.map_values(
                    |e: (Seq<char>, NodeV)| apply_service_entry(e, outs@),
                ));
            }
            Node::Mapping(r)
        },
        _ => clone_node(v),
    }
}

impl ComposeYaml {
    /// Applies resolution outcomes: in every service whose `image` name
    /// matches an outcome's declared name and whose resolved reference
    /// differs, the `image` scalar's text is replaced; everything else,
    /// including all ordering, stays as it was.
    pub fn update_images_tag(&mut self, outcomes: &Vec<TagOutcome>)
        ensures
            entries_v(final(self).root@) == apply_root(
                entries_v(old(self).root@),
                outcomes@,
            ),
    {
        let ghost evs = entries_v(self.root@);
        proof {
            lemma_entries_v(self.root@);
        }
        let mut new_root: Vec<(String, Node)> = Vec::new();
        let mut i: usize = 0;
        while i < self.root.len()
            invariant
                0 <= i <= self.root@.len(),
                evs == entries_v(self.root@),
                evs.len() == self.root@.len(),
                new_root@.len() == i,
                forall|j: int| 0 <= j < self.root@.len() ==> #[trigger] evs[j] == (
                    self.root@[j].0@,
                    node_v(self.root@[j].1),
                ),
                forall|j: int|
                    0 <= j < i ==> ((#[trigger] new_root@[j]).0@, node_v(new_root@[j].1))
                        == apply_root(evs, outcomes@)[j],
            decreases self.root@.len() - i,
        {
            let k = self.root[i].0.clone();
            let is_services = string_eq_str(&k, "services");
            let nv: Node;
            if is_services {
                match &self.root[i].1 {
                    Node::Mapping(ss) => {
                        let ghost ssv = entries_v(ss@);
                        proof {
                            lemma_entries_v(ss@);
                        }
                        let mut new_ss: Vec<(String, Node)> = Vec::new();
                        let mut j: usize = 0;
                        while j < ss.len()
                            invariant
                                0 <= j <= ss@.len(),
                                ssv == entries_v(ss@),
                                ssv.len() == ss@.len(),
                                new_ss@.len() == j,
                                forall|m: int| 0 <= m < ss@.len() ==> #[trigger] ssv[m]
                                    == (ss@[m].0@, node_v(ss@[m].1)),
                                forall|m: int|
                                    0 <= m < j ==> ((#[trigger] new_ss@[m]).0@, node_v(
                                        new_ss@[m].1,
                                    )) == (
                                        ssv[m].0,
                                        apply_service(ssv[m].1, outcomes@),
                                    ),
                            decreases ss@.len() - j,
                        {
                            let sk = ss[j].0.clone();
                            let svn = apply_service_exec(&ss[j].1, outcomes);
                            new_ss.push((sk, svn));
                            j = j + 1;
                        }
                        proof {
                            lemma_entries_v(new_ss@);
                            assert(entries_v(new_ss@) =~= apply_services(ssv, outcomes@));
                        }
                        nv = Node::Mapping(new_ss);
                    },
                    other => {
                        nv = clone_node(other);
                    },
                }
            } else {
                nv = clone_node(&self.root[i].1);
            }
            new_root.push((k, nv));
            proof {
                assert(apply_root(evs, outcomes@)[i as int] == ({
                    let e = evs[i as int];
                    if e.0 == "services"@ {
                        (
                            e.0,
                            match e.1 {
                                NodeV::Mapping(ss) => NodeV::Mapping(
                                    apply_services(ss, outcomes@),
                                ),
                                _ => e.1,
                            },
                        )
                    } else {
                        e
                    }
                }));
            }
            i = i + 1;
        }
        self.root = new_root;
        proof {
            lemma_entries_v(self.root@);
            assert(entries_v(self.root@) =~= apply_root(evs, outcomes@));
        }
    }
}

} // verus!
