//! The configuration document and its accessors: root collections, a
//! single service, its environment variables (normalized), its
//! dependency list, profile names, and image references.

use vstd::prelude::*;
use crate::node::{Node, NodeV, node_v, nodes_v, entries_v, map_get, keys_of, lemma_nodes_v,
    lemma_entries_v};
use crate::parse_spec::ParseError;
use crate::parser::parse_doc;
use crate::emit::{emit_doc, depth_entries, MAX_EMIT_DEPTH, doc_text};
use crate::text::{trail_before, find_char_from, find_char_last, all_word_chars, chars_of,
    string_of, sub_chars, string_eq_str, contains_char, all_word_chars_exec, trimmed_end,
    push_chars, push_str_chars, find_last_char};
use crate::strsort::{strs_v, sorted_lt, insert_sorted_unique};

verus! {

/// A parsed configuration document: an ordered mapping at its root.
pub struct ComposeYaml {
    pub root: Vec<(String, Node)>,
}

/// Looks a key up in a list of entries; first match wins.
pub fn map_get_exec<'a>(es: &'a Vec<(String, Node)>, key: &str) -> (r: Option<&'a Node>)
    ensures
        match r {
            Some(n) => map_get(entries_v(es@), key@) == Some(node_v(*n)),
            None => map_get(entries_v(es@), key@) is None,
        },
{
    let ghost evs = entries_v(es@);
    proof {
        lemma_entries_v(es@);
        assert(evs.subrange(0, evs.len() as int) =~= evs);
    }
    let mut i: usize = 0;
    while i < es.len()
        invariant
            0 <= i <= es@.len(),
            evs == entries_v(es@),
            evs.len() == es@.len(),
            forall|j: int| 0 <= j < es@.len() ==> evs[j] == (
                es@[j].0@,
                node_v(#[trigger] es@[j].1),
            ),
            map_get(evs, key@) == map_get(
                evs.subrange(i as int, evs.len() as int),
                key@,
            ),
        decreases es@.len() - i,
    {
        proof {
            let suf = evs.subrange(i as int, evs.len() as int);
            assert(suf[0] == evs[i as int]);
            assert(suf.drop_first() =~= evs.subrange(i + 1, evs.len() as int));
        }
        if string_eq_str(&es[i].0, key) {
            return Some(&es[i].1);
        }
        i = i + 1;
    }
    proof {
        assert(evs.subrange(i as int, evs.len() as int) =~= Seq::<(Seq<char>, NodeV)>::empty());
    }
    None
}

/// The entries of the sub-mapping stored under `name`, if the value under
/// `name` is a mapping.
pub open spec fn root_mapping(es: Seq<(Seq<char>, NodeV)>, name: Seq<char>) -> Option<
    Seq<(Seq<char>, NodeV)>,
> {
    match map_get(es, name) {
        Some(NodeV::Mapping(sub)) => Some(sub),
        _ => None,
    }
}

/// The entries of the service called `name`, if `services.<name>` is a
/// mapping.
pub open spec fn service_entries(
    es: Seq<(Seq<char>, NodeV)>,
    name: Seq<char>,
) -> Option<Seq<(Seq<char>, NodeV)>> {
    match root_mapping(es, "services"@) {
        Some(ss) => root_mapping(ss, name),
        None => None,
    }
}

/// The textual form of a mapping-style environment value: a scalar's text
/// without trailing spaces; anything else is empty.
pub open spec fn env_val_text(v: NodeV) -> Seq<char> {
    match v {
        NodeV::Scalar(t, _) => t.subrange(0, trail_before(t, t.len() as int)),
        _ => Seq::empty(),
    }
}

/// One `KEY=VALUE` line from a mapping-style environment entry: a value
/// with a space is quoted (single quotes when it holds a double quote).
pub open spec fn env_map_entry(k: Seq<char>, v: NodeV) -> Seq<char> {
    let t = env_val_text(v);
    if find_char_from(t, ' ', 0) is Some {
        if find_char_from(t, '"', 0) is Some {
            k + seq!['=', '\''] + t + seq!['\'']
        } else {
            k + seq!['=', '"'] + t + seq!['"']
        }
    } else {
        k + seq!['='] + t
    }
}

/// One line from a sequence-style environment entry: a bare name gets a
/// trailing `=`.
pub open spec fn env_seq_elem(v: NodeV) -> Seq<char> {
    let t = match v {
        NodeV::Scalar(t, _) => t,
        _ => Seq::<char>::empty(),
    };
    if t.len() > 0 && all_word_chars(t) {
        t + seq!['=']
    } else {
        t
    }
}

/// The lines of a sequence-style environment, in order.
pub open spec fn env_seq_lines(items: Seq<NodeV>) -> Seq<Seq<char>> {
    items.map_values(|v: NodeV| env_seq_elem(v))
}

/// The lines of a mapping-style environment, in order.
pub open spec fn env_map_lines(es: Seq<(Seq<char>, NodeV)>) -> Seq<Seq<char>> {
    es.map_values(|e: (Seq<char>, NodeV)| env_map_entry(e.0, e.1))
}

/// The normalized environment lines of a service.
pub open spec fn env_strings(sv: Seq<(Seq<char>, NodeV)>) -> Option<Seq<Seq<char>>> {
    match map_get(sv, "environment"@) {
        None => None,
        Some(NodeV::Sequence(items)) => Some(env_seq_lines(items)),
        Some(NodeV::Mapping(es)) => Some(env_map_lines(es)),
        Some(NodeV::Scalar(_, _)) => Some(Seq::empty()),
    }
}

/// Scalar texts of a dependency sequence, empty ones dropped.
pub open spec fn dep_seq(items: Seq<NodeV>) -> Seq<Seq<char>>
    decreases items,
{
    if items.len() == 0 {
        Seq::empty()
    } else {
        let head = match items[0] {
            NodeV::Scalar(t, _) => if t.len() > 0 {
                seq![t]
            } else {
                Seq::<Seq<char>>::empty()
            },
            _ => Seq::<Seq<char>>::empty(),
        };
        head + dep_seq(items.drop_first())
    }
}

/// Keys of a long-syntax dependency mapping, empty ones dropped; the
/// per-key condition metadata is ignored.
pub open spec fn dep_keys(es: Seq<(Seq<char>, NodeV)>) -> Seq<Seq<char>>
    decreases es,
{
    if es.len() == 0 {
        Seq::empty()
    } else {
        let head = if es[0].0.len() > 0 {
            seq![es[0].0]
        } else {
            Seq::<Seq<char>>::empty()
        };
        head + dep_keys(es.drop_first())
    }
}

/// The dependency names of a service.
pub open spec fn depends_strings(sv: Seq<(Seq<char>, NodeV)>) -> Option<Seq<Seq<char>>> {
    match map_get(sv, "depends_on"@) {
        None => None,
        Some(NodeV::Sequence(items)) => Some(dep_seq(items)),
        Some(NodeV::Mapping(es)) => Some(dep_keys(es)),
        Some(NodeV::Scalar(_, _)) => Some(Seq::empty()),
    }
}

/// The scalar texts among a profile sequence's items.
pub open spec fn profile_elems(items: Seq<NodeV>) -> Set<Seq<char>>
    decreases items,
{
    if items.len() == 0 {
        Set::empty()
    } else {
        let head = match items[0] {
            NodeV::Scalar(t, _) => Set::empty().insert(t),
            _ => Set::<Seq<char>>::empty(),
        };
        head.union(profile_elems(items.drop_first()))
    }
}

/// The profile names a single service declares.
pub open spec fn service_profiles(v: NodeV) -> Set<Seq<char>> {
    match v {
        NodeV::Mapping(sv) => match map_get(sv, "profiles"@) {
            Some(NodeV::Sequence(items)) => profile_elems(items),
            _ => Set::empty(),
        },
        _ => Set::empty(),
    }
}

/// All profile names declared across the services.
pub open spec fn services_profiles(ss: Seq<(Seq<char>, NodeV)>) -> Set<Seq<char>>
    decreases ss,
{
    if ss.len() == 0 {
        Set::empty()
    } else {
        service_profiles(ss[0].1).union(services_profiles(ss.drop_first()))
    }
}

/// The tag of an image reference: what follows the last `:`, `latest`
/// when there is none.
pub open spec fn image_tag(t: Seq<char>) -> Seq<char> {
    match find_char_last(t, ':', t.len() as int) {
        Some(k) => t.subrange(k + 1, t.len() as int),
        None => seq!['l', 'a', 't', 'e', 's', 't'],
    }
}

/// The name of an image reference: what precedes the last `:`.
pub open spec fn image_name(t: Seq<char>) -> Seq<char> {
    match find_char_last(t, ':', t.len() as int) {
        Some(k) => t.subrange(0, k),
        None => t,
    }
}

/// The image of one service, kept only when it passes the tag filter.
pub open spec fn service_images(v: NodeV, filter: Option<Seq<char>>) -> Set<Seq<char>> {
    match v {
        NodeV::Mapping(sv) => match map_get(sv, "image"@) {
            Some(NodeV::Scalar(t, _)) => {
                let keep = match filter {
                    None => true,
                    Some(ft) => image_tag(t) == ft,
                };
                if keep {
                    Set::empty().insert(t)
                } else {
                    Set::empty()
                }
            },
            _ => Set::empty(),
        },
        _ => Set::empty(),
    }
}

/// All images declared across the services that pass the tag filter.
pub open spec fn services_images(
    ss: Seq<(Seq<char>, NodeV)>,
    filter: Option<Seq<char>>,
) -> Set<Seq<char>>
    decreases ss,
{
    if ss.len() == 0 {
        Set::empty()
    } else {
        service_images(ss[0].1, filter).union(services_images(ss.drop_first(), filter))
    }
}

/// The executable image-tag extraction.
pub fn image_tag_exec(image: &str) -> (r: String)
    ensures
        r@ == image_tag(image@),
{
    let cs = chars_of(image);
    match find_last_char(&cs, ':') {
        Some(k) => {
            let n = cs.len();
            proof {
                crate::text::lemma_find_char_last_range(cs@, ':', cs@.len() as int);
                assert(k + 1 <= n);
            }
            let sub = sub_chars(&cs, k + 1, n);
            string_of(&sub)
        },
        None => {
            let mut v: Vec<char> = Vec::new();
            v.push('l');
            v.push('a');
            v.push('t');
            v.push('e');
            v.push('s');
            v.push('t');
            proof {
                assert(v@ =~= seq!['l', 'a', 't', 'e', 's', 't']);
            }
            string_of(&v)
        },
    }
}

/// The executable image-name extraction.
pub fn image_name_exec(image: &str) -> (r: String)
    ensures
        r@ == image_name(image@),
{
    let cs = chars_of(image);
    match find_last_char(&cs, ':') {
        Some(k) => {
            proof {
                crate::text::lemma_find_char_last_range(cs@, ':', cs@.len() as int);
            }
            let sub = sub_chars(&cs, 0, k);
            string_of(&sub)
        },
        None => string_of(&cs),
    }
}

impl ComposeYaml {
    /// Parses a document; the root must be a mapping.
    pub fn new(yaml: &str) -> (r: Result<ComposeYaml, ParseError>)
        ensures
            match r {
                Ok(c) => crate::parse_spec::p_doc(yaml@) == Ok::<NodeV, ParseError>(
                    NodeV::Mapping(entries_v(c.root@)),
                ),
                Err(e) => crate::parse_spec::p_doc(yaml@) == Err::<NodeV, ParseError>(e),
            },
    {
        match parse_doc(yaml) {
            Ok(n) => match n {
                Node::Mapping(es) => Ok(ComposeYaml { root: es }),
                _ => {
                    proof {
                        assert(false);
                    }
                    Err(ParseError::Malformed)
                },
            },
            Err(e) => Err(e),
        }
    }

    /// Writes the document back out; every mapping keeps its key order and
    /// every scalar its original text. Fails only on trees nested beyond
    /// the writer's recursion limit.
    pub fn to_string(&self) -> (r: Result<String, ()>)
        ensures
            match r {
                Ok(s) => depth_entries(entries_v(self.root@)) <= MAX_EMIT_DEPTH && s@
                    == doc_text(entries_v(self.root@)),
                Err(_) => depth_entries(entries_v(self.root@)) > MAX_EMIT_DEPTH,
            },
    {
        emit_doc(&self.root)
    }

    /// The sub-mapping stored at the root under `element_name`, if the
    /// value there is a mapping.
    pub fn get_root_element<'a>(&'a self, element_name: &str) -> (r: Option<
        &'a Vec<(String, Node)>,
    >)
        ensures
            match r {
                Some(m) => root_mapping(entries_v(self.root@), element_name@) == Some(
                    entries_v(m@),
                ),
                None => root_mapping(entries_v(self.root@), element_name@) is None,
            },
    {
        match map_get_exec(&self.root, element_name) {
            Some(n) => match n {
                Node::Mapping(es) => Some(es),
                _ => None,
            },
            None => None,
        }
    }

    /// The keys of the root sub-mapping `element_name`, in insertion
    /// order; empty when it is absent or not a mapping.
    pub fn get_root_element_names(&self, element_name: &str) -> (r: Vec<String>)
        ensures
            match root_mapping(entries_v(self.root@), element_name@) {
                Some(sub) => strs_v(r@) == keys_of(sub),
                None => r@.len() == 0,
            },
    {
        match self.get_root_element(element_name) {
            None => Vec::new(),
            Some(m) => {
                let ghost sub = entries_v(m@);
                proof {
                    lemma_entries_v(m@);
                }
                let mut r: Vec<String> = Vec::new();
                let mut i: usize = 0;
                while i < m.len()
                    invariant
                        0 <= i <= m@.len(),
                        sub == entries_v(m@),
                        sub.len() == m@.len(),
                        forall|j: int| 0 <= j < m@.len() ==> #[trigger] sub[j] == (
                            m@[j].0@,
                            node_v(m@[j].1),
                        ),
                        strs_v(r@) == keys_of(sub).subrange(0, i as int),
                    decreases m@.len() - i,
                {
                    proof {
                        assert(sub[i as int] == (m@[i as int].0@, node_v(m@[i as int].1)));
                    }
                    let ghost r_old = r@;
                    let k = m[i].0.clone();
                    let ghost kk = k@;
                    r.push(k);
                    proof {
                        assert(r_old.len() == strs_v(r_old).len());
                        assert(strs_v(r_old).len() == keys_of(sub).subrange(0, i as int).len());
                        assert(r_old.len() == i);
                        assert(r@ == r_old.push(r@[r@.len() - 1]));
                        assert(r@.len() == i + 1);
                        assert forall|j: int|
                            0 <= j < i + 1 implies strs_v(r@)[j] == keys_of(sub).subrange(
                            0,
                            i + 1,
                        )[j] by {
                            assert(strs_v(r@)[j] == r@[j]@);
                            assert(keys_of(sub).subrange(0, i + 1)[j] == sub[j].0);
                            if j < i {
                                assert(r@[j] == r_old[j]);
                                assert(strs_v(r_old)[j] == r_old[j]@);
                                assert(strs_v(r_old)[j] == keys_of(sub).subrange(
                                    0,
                                    i as int,
                                )[j]);
                            } else {
                                assert(r@[j]@ == kk);
                            }
                        }
                        assert(strs_v(r@) =~= keys_of(sub).subrange(0, i + 1));
                    }
                    i = i + 1;
                }
                proof {
                    assert(keys_of(sub).subrange(0, i as int) =~= keys_of(sub));
                }
                r
            },
        }
    }

    /// The `services` sub-mapping.
    pub fn get_services<'a>(&'a self) -> (r: Option<&'a Vec<(String, Node)>>)
        ensures
            match r {
                Some(m) => root_mapping(entries_v(self.root@), "services"@) == Some(
                    entries_v(m@),
                ),
                None => root_mapping(entries_v(self.root@), "services"@) is None,
            },
    {
        self.get_root_element("services")
    }

    /// The service called `service_name`; a service written as a bare
    /// scalar is not a service.
    pub fn get_service<'a>(&'a self, service_name: &str) -> (r: Option<
        &'a Vec<(String, Node)>,
    >)
        ensures
            match r {
                Some(m) => service_entries(entries_v(self.root@), service_name@) == Some(
                    entries_v(m@),
                ),
                None => service_entries(entries_v(self.root@), service_name@) is None,
            },
    {
        match self.get_services() {
            None => None,
            Some(ss) => {
                match map_get_exec(ss, service_name) {
                    Some(n) => match n {
                        Node::Mapping(es) => Some(es),
                        _ => None,
                    },
                    None => None,
                }
            },
        }
    }

    /// The service's environment, normalized to `KEY=VALUE` lines.
    pub fn get_service_envs(&self, service: &Vec<(String, Node)>) -> (r: Option<
        Vec<String>,
    >)
        ensures
            match r {
                Some(lines) => env_strings(entries_v(service@)) == Some(strs_v(lines@)),
                None => env_strings(entries_v(service@)) is None,
            },
    {
        match map_get_exec(service, "environment") {
            None => None,
            Some(n) => match n {
                Node::Sequence(items) => {
                    let ghost ivs = nodes_v(items@);
                    proof {
                        lemma_nodes_v(items@);
                    }
                    let mut r: Vec<String> = Vec::new();
                    let mut i: usize = 0;
                    while i < items.len()
                        invariant
                            0 <= i <= items@.len(),
                            ivs == nodes_v(items@),
                            ivs.len() == items@.len(),
                            forall|j: int| 0 <= j < items@.len() ==> #[trigger] ivs[j]
                                == node_v(items@[j]),
                            strs_v(r@) == env_seq_lines(ivs).subrange(0, i as int),
                        decreases items@.len() - i,
                    {
                        proof {
                            assert(ivs[i as int] == node_v(items@[i as int]));
                        }
                        let ghost r_old = r@;
                        let line = env_seq_elem_exec(&items[i]);
                        let ghost lv = line@;
                        r.push(line);
                        proof {
                            assert(r_old.len() == strs_v(r_old).len());
                            assert(strs_v(r_old).len() == env_seq_lines(ivs).subrange(
                                0,
                                i as int,
                            ).len());
                            assert(r_old.len() == i);
                            assert(r@ == r_old.push(r@[r@.len() - 1]));
                            assert(r@.len() == i + 1);
                            assert(lv == env_seq_elem(ivs[i as int]));
                            assert forall|j: int|
                                0 <= j < i + 1 implies strs_v(r@)[j] == env_seq_lines(
                                ivs,
                            ).subrange(0, i + 1)[j] by {
                                assert(strs_v(r@)[j] == r@[j]@);
                                assert(env_seq_lines(ivs).subrange(0, i + 1)[j]
                                    == env_seq_elem(ivs[j]));
                                if j < i {
                                    assert(r@[j] == r_old[j]);
                                    assert(strs_v(r_old)[j] == r_old[j]@);
                                    assert(strs_v(r_old)[j] == env_seq_lines(ivs).subrange(
                                        0,
                                        i as int,
                                    )[j]);
                                } else {
                                    assert(r@[j]@ == lv);
                                }
                            }
                            assert(strs_v(r@) =~= env_seq_lines(ivs).subrange(0, i + 1));
                        }
                        i = i + 1;
                    }
                    proof {
                        assert(env_seq_lines(ivs).subrange(0, i as int) =~= env_seq_lines(
                            ivs,
                        ));
                    }
                    Some(r)
                },
                Node::Mapping(es) => {
                    let ghost evs = entries_v(es@);
                    proof {
                        lemma_entries_v(es@);
                    }
                    let mut r: Vec<String> = Vec::new();
                    let mut i: usize = 0;
                    while i < es.len()
                        invariant
                            0 <= i <= es@.len(),
                            evs == entries_v(es@),
                            evs.len() == es@.len(),
                            forall|j: int| 0 <= j < es@.len() ==> #[trigger] evs[j] == (
                                es@[j].0@,
                                node_v(es@[j].1),
                            ),
                            strs_v(r@) == env_map_lines(evs).subrange(0, i as int),
                        decreases es@.len() - i,
                    {
                        proof {
                            assert(evs[i as int] == (
                                es@[i as int].0@,
                                node_v(es@[i as int].1),
                            ));
                        }
                        let ghost r_old = r@;
                        let line = env_map_entry_exec(&es[i].0, &es[i].1);
                        let ghost lv = line@;
                        r.push(line);
                        proof {
                            assert(r_old.len() == strs_v(r_old).len());
                            assert(strs_v(r_old).len() == env_map_lines(evs).subrange(
                                0,
                                i as int,
                            ).len());
                            assert(r_old.len() == i);
                            assert(r@ == r_old.push(r@[r@.len() - 1]));
                            assert(r@.len() == i + 1);
                            assert(lv == env_map_entry(evs[i as int].0, evs[i as int].1));
                            assert forall|j: int|
                                0 <= j < i + 1 implies strs_v(r@)[j] == env_map_lines(
                                evs,
                            ).subrange(0, i + 1)[j] by {
                                assert(strs_v(r@)[j] == r@[j]@);
                                assert(env_map_lines(evs).subrange(0, i + 1)[j]
                                    == env_map_entry(evs[j].0, evs[j].1));
                                if j < i {
                                    assert(r@[j] == r_old[j]);
                                    assert(strs_v(r_old)[j] == r_old[j]@);
                                    assert(strs_v(r_old)[j] == env_map_lines(evs).subrange(
                                        0,
                                        i as int,
                                    )[j]);
                                } else {
                                    assert(r@[j]@ == lv);
                                }
                            }
                            assert(strs_v(r@) =~= env_map_lines(evs).subrange(0, i + 1));
                        }
                        i = i + 1;
                    }
                    proof {
                        assert(env_map_lines(evs).subrange(0, i as int) =~= env_map_lines(
                            evs,
                        ));
                    }
                    Some(r)
                },
                Node::Scalar(_, _) => {
                    proof {
                        assert(strs_v(Seq::<String>::empty()) =~= Seq::<Seq<char>>::empty());
                    }
                    Some(Vec::new())
                },
            },
        }
    }

    /// The service's dependency names, in declaration order.
    pub fn get_service_depends_on(&self, service: &Vec<(String, Node)>) -> (r: Option<
        Vec<String>,
    >)
        ensures
            match r {
                Some(names) => depends_strings(entries_v(service@)) == Some(strs_v(names@)),
                None => depends_strings(entries_v(service@)) is None,
            },
    {
        match map_get_exec(service, "depends_on") {
            None => None,
            Some(n) => match n {
                Node::Sequence(items) => {
                    let ghost ivs = nodes_v(items@);
                    proof {
                        lemma_nodes_v(items@);
                        assert(ivs.subrange(0, ivs.len() as int) =~= ivs);
                    }
                    let mut r: Vec<String> = Vec::new();
                    let mut i: usize = 0;
                    while i < items.len()
                        invariant
                            0 <= i <= items@.len(),
                            ivs == nodes_v(items@),
                            ivs.len() == items@.len(),
                            forall|j: int| 0 <= j < items@.len() ==> ivs[j] == node_v(
                                #[trigger] items@[j],
                            ),
                            strs_v(r@) + dep_seq(ivs.subrange(i as int, ivs.len() as int))
                                == dep_seq(ivs),
                        decreases items@.len() - i,
                    {
                        proof {
                            let suf = ivs.subrange(i as int, ivs.len() as int);
                            assert(suf[0] == ivs[i as int]);
                            assert(suf.drop_first() =~= ivs.subrange(
                                i + 1,
                                ivs.len() as int,
                            ));
                        }
                        proof {
                            assert(ivs[i as int] == node_v(items@[i as int]));
                        }
                        match &items[i] {
                            Node::Scalar(t, _) => {
                                if t.unicode_len() > 0 {
                                    r.push(t.clone());
                                }
                            },
                            _ => {},
                        }
                        proof {
                            assert(strs_v(r@) + dep_seq(
                                ivs.subrange(i + 1, ivs.len() as int),
                            ) =~= dep_seq(ivs));
                        }
                        i = i + 1;
                    }
                    proof {
                        assert(dep_seq(ivs.subrange(i as int, ivs.len() as int)) =~= Seq::<
                            Seq<char>,
                        >::empty());
                        assert(strs_v(r@) =~= dep_seq(ivs));
                    }
                    Some(r)
                },
                Node::Mapping(es) => {
                    let ghost evs = entries_v(es@);
                    proof {
                        lemma_entries_v(es@);
                        assert(evs.subrange(0, evs.len() as int) =~= evs);
                    }
                    let mut r: Vec<String> = Vec::new();
                    let mut i: usize = 0;
                    while i < es.len()
                        invariant
                            0 <= i <= es@.len(),
                            evs == entries_v(es@),
                            evs.len() == es@.len(),
                            forall|j: int| 0 <= j < es@.len() ==> evs[j] == (
                                es@[j].0@,
                                node_v(#[trigger] es@[j].1),
                            ),
                            strs_v(r@) + dep_keys(evs.subrange(i as int, evs.len() as int))
                                == dep_keys(evs),
                        decreases es@.len() - i,
                    {
                        proof {
                            let suf = evs.subrange(i as int, evs.len() as int);
                            assert(suf[0] == evs[i as int]);
                            assert(suf.drop_first() =~= evs.subrange(
                                i + 1,
                                evs.len() as int,
                            ));
                        }
                        proof {
                            assert(evs[i as int] == (
                                es@[i as int].0@,
                                node_v(es@[i as int].1),
                            ));
                        }
                        if es[i].0.as_str().unicode_len() > 0 {
                            r.push(es[i].0.clone());
                        }
                        proof {
                            assert(strs_v(r@) + dep_keys(
                                evs.subrange(i + 1, evs.len() as int),
                            ) =~= dep_keys(evs));
                        }
                        i = i + 1;
                    }
                    proof {
                        assert(dep_keys(evs.subrange(i as int, evs.len() as int)) =~= Seq::<
                            Seq<char>,
                        >::empty());
                        assert(strs_v(r@) =~= dep_keys(evs));
                    }
                    Some(r)
                },
                Node::Scalar(_, _) => {
                    proof {
                        assert(strs_v(Seq::<String>::empty()) =~= Seq::<Seq<char>>::empty());
                    }
                    Some(Vec::new())
                },
            },
        }
    }

    /// Every profile name any service declares, sorted and without
    /// duplicates.
    pub fn get_profiles_names(&self) -> (r: Option<Vec<String>>)
        ensures
            match r {
                Some(names) => root_mapping(entries_v(self.root@), "services"@) matches Some(
                    ss,
                ) && sorted_lt(strs_v(names@)) && strs_v(names@).to_set()
                    == services_profiles(ss),
                None => root_mapping(entries_v(self.root@), "services"@) is None,
            },
    {
        let ss: &Vec<(String, Node)> = match self.get_services() {
            None => {
                return None;
            },
            Some(m) => m,
        };
        let ghost ssv = entries_v(ss@);
        proof {
            lemma_entries_v(ss@);
            assert(ssv.subrange(0, ssv.len() as int) =~= ssv);
        }
        let mut acc: Vec<String> = Vec::new();
        proof {
            assert(strs_v(acc@) =~= Seq::<Seq<char>>::empty());
            assert(strs_v(acc@).to_set() =~= Set::<Seq<char>>::empty());
            assert(strs_v(acc@).to_set().union(services_profiles(ssv)) =~= services_profiles(
                ssv,
            ));
        }
        let mut i: usize = 0;
        while i < ss.len()
            invariant
                0 <= i <= ss@.len(),
                ssv == entries_v(ss@),
                ssv.len() == ss@.len(),
                forall|j: int| 0 <= j < ss@.len() ==> #[trigger] ssv[j] == (
                    ss@[j].0@,
                    node_v(ss@[j].1),
                ),
                sorted_lt(strs_v(acc@)),
                strs_v(acc@).to_set().union(
                    services_profiles(ssv.subrange(i as int, ssv.len() as int)),
                ) == services_profiles(ssv),
            decreases ss@.len() - i,
        {
            proof {
                let suf = ssv.subrange(i as int, ssv.len() as int);
                assert(suf[0] == ssv[i as int]);
                assert(suf.drop_first() =~= ssv.subrange(i + 1, ssv.len() as int));
            }
            let ghost sp = service_profiles(ssv[i as int].1);
            match &ss[i].1 {
                Node::Mapping(sv) => {
                    match map_get_exec(sv, "profiles") {
                        Some(n) => match n {
                            Node::Sequence(items) => {
                                let ghost ivs = nodes_v(items@);
                                proof {
                                    lemma_nodes_v(items@);
                                    assert(sp == profile_elems(ivs));
                                    assert(ivs.subrange(0, ivs.len() as int) =~= ivs);
                                }
                                let mut j: usize = 0;
                                while j < items.len()
                                    invariant
                                        0 <= j <= items@.len(),
                                        ivs == nodes_v(items@),
                                        ivs.len() == items@.len(),
                                        forall|m: int| 0 <= m < items@.len()
                                            ==> #[trigger] ivs[m] == node_v(items@[m]),
                                        sorted_lt(strs_v(acc@)),
                                        strs_v(acc@).to_set().union(
                                            profile_elems(
                                                ivs.subrange(j as int, ivs.len() as int),
                                            ).union(
                                                services_profiles(
                                                    ssv.subrange(i + 1, ssv.len() as int),
                                                ),
                                            ),
                                        ) == services_profiles(ssv),
                                    decreases items@.len() - j,
                                {
                                    proof {
                                        let isuf = ivs.subrange(j as int, ivs.len() as int);
                                        assert(isuf[0] == ivs[j as int]);
                                        assert(isuf.drop_first() =~= ivs.subrange(
                                            j + 1,
                                            ivs.len() as int,
                                        ));
                                    }
                                    let ghost acc_old = strs_v(acc@).to_set();
                                    match &items[j] {
                                        Node::Scalar(t, _) => {
                                            insert_sorted_unique(&mut acc, t);
                                            proof {
                                                assert(strs_v(acc@).to_set() =~= acc_old
                                                    .insert(t@));
                                            }
                                        },
                                        _ => {},
                                    }
                                    proof {
                                        assert(strs_v(acc@).to_set().union(
                                            profile_elems(
                                                ivs.subrange(j + 1, ivs.len() as int),
                                            ).union(
                                                services_profiles(
                                                    ssv.subrange(i + 1, ssv.len() as int),
                                                ),
                                            ),
                                        ) =~= services_profiles(ssv));
                                    }
                                    j = j + 1;
                                }
                                proof {
                                    assert(profile_elems(
                                        ivs.subrange(j as int, ivs.len() as int),
                                    ) =~= Set::<Seq<char>>::empty());
                                    assert(strs_v(acc@).to_set().union(
                                        services_profiles(
                                            ssv.subrange(i + 1, ssv.len() as int),
                                        ),
                                    ) =~= services_profiles(ssv));
                                }
                            },
                            _ => {
                                proof {
                                    assert(sp =~= Set::<Seq<char>>::empty());
                                    assert(strs_v(acc@).to_set().union(
                                        services_profiles(
                                            ssv.subrange(i + 1, ssv.len() as int),
                                        ),
                                    ) =~= services_profiles(ssv));
                                }
                            },
                        },
                        None => {
                            proof {
                                assert(sp =~= Set::<Seq<char>>::empty());
                                assert(strs_v(acc@).to_set().union(
                                    services_profiles(ssv.subrange(i + 1, ssv.len() as int)),
                                ) =~= services_profiles(ssv));
                            }
                        },
                    }
                },
                _ => {
                    proof {
                        assert(sp =~= Set::<Seq<char>>::empty());
                        assert(strs_v(acc@).to_set().union(
                            services_profiles(ssv.subrange(i + 1, ssv.len() as int)),
                        ) =~= services_profiles(ssv));
                    }
                },
            }
            i = i + 1;
        }
        proof {
            assert(services_profiles(ssv.subrange(i as int, ssv.len() as int)) =~= Set::<
                Seq<char>,
            >::empty());
            assert(strs_v(acc@).to_set() =~= services_profiles(ssv));
        }
        Some(acc)
    }

    /// Every image any service declares, optionally only those whose tag
    /// is `filter_by_tag`, sorted and without duplicates.
    pub fn get_images(&self, filter_by_tag: Option<&str>) -> (r: Option<Vec<String>>)
        ensures
            match r {
                Some(names) => root_mapping(entries_v(self.root@), "services"@) matches Some(
                    ss,
                ) && sorted_lt(strs_v(names@)) && strs_v(names@).to_set() == services_images(
                    ss,
                    match filter_by_tag {
                        Some(f) => Some(f@),
                        None => None,
                    },
                ),
                None => root_mapping(entries_v(self.root@), "services"@) is None,
            },
    {
        let ghost fv: Option<Seq<char>> = match filter_by_tag {
            Some(f) => Some(f@),
            None => None,
        };
        let ss: &Vec<(String, Node)> = match self.get_services() {
            None => {
                return None;
            },
            Some(m) => m,
        };
        let ghost ssv = entries_v(ss@);
        proof {
            lemma_entries_v(ss@);
            assert(ssv.subrange(0, ssv.len() as int) =~= ssv);
        }
        let mut acc: Vec<String> = Vec::new();
        proof {
            assert(strs_v(acc@) =~= Seq::<Seq<char>>::empty());
            assert(strs_v(acc@).to_set() =~= Set::<Seq<char>>::empty());
            assert(strs_v(acc@).to_set().union(services_images(ssv, fv)) =~= services_images(
                ssv,
                fv,
            ));
        }
        let mut i: usize = 0;
        while i < ss.len()
            invariant
                0 <= i <= ss@.len(),
                ssv == entries_v(ss@),
                ssv.len() == ss@.len(),
                forall|j: int| 0 <= j < ss@.len() ==> #[trigger] ssv[j] == (
                    ss@[j].0@,
                    node_v(ss@[j].1),
                ),
                fv == (match filter_by_tag {
                    Some(f) => Some(f@),
                    None => None,
                }),
                sorted_lt(strs_v(acc@)),
                strs_v(acc@).to_set().union(
                    services_images(ssv.subrange(i as int, ssv.len() as int), fv),
                ) == services_images(ssv, fv),
            decreases ss@.len() - i,
        {
            proof {
                let suf = ssv.subrange(i as int, ssv.len() as int);
                assert(suf[0] == ssv[i as int]);
                assert(suf.drop_first() =~= ssv.subrange(i + 1, ssv.len() as int));
            }
            let ghost si = service_images(ssv[i as int].1, fv);
            let ghost acc_old = strs_v(acc@).to_set();
            match &ss[i].1 {
                Node::Mapping(sv) => {
                    match map_get_exec(sv, "image") {
                        Some(n) => match n {
                            Node::Scalar(t, _) => {
                                let keep: bool = match filter_by_tag {
                                    None => true,
                                    Some(ft) => {
                                        let tag = image_tag_exec(t.as_str());
                                        string_eq_str(&tag, ft)
                                    },
                                };
                                if keep {
                                    insert_sorted_unique(&mut acc, t);
                                    proof {
                                        assert(si =~= Set::<Seq<char>>::empty().insert(t@));
                                        assert(strs_v(acc@).to_set() =~= acc_old.insert(
                                            t@,
                                        ));
                                    }
                                } else {
                                    proof {
                                        assert(si =~= Set::<Seq<char>>::empty());
                                    }
                                }
                            },
                            _ => {
                                proof {
                                    assert(si =~= Set::<Seq<char>>::empty());
                                }
                            },
                        },
                        None => {
                            proof {
                                assert(si =~= Set::<Seq<char>>::empty());
                            }
                        },
                    }
                },
                _ => {
                    proof {
                        assert(si =~= Set::<Seq<char>>::empty());
                    }
                },
            }
            proof {
                assert(strs_v(acc@).to_set().union(
                    services_images(ssv.subrange(i + 1, ssv.len() as int), fv),
                ) =~= services_images(ssv, fv));
            }
            i = i + 1;
        }
        proof {
            assert(services_images(ssv.subrange(i as int, ssv.len() as int), fv) =~= Set::<
                Seq<char>,
            >::empty());
            assert(strs_v(acc@).to_set() =~= services_images(ssv, fv));
        }
        Some(acc)
    }
}

/// One sequence-style environment line.
fn env_seq_elem_exec(v: &Node) -> (r: String)
    ensures
        r@ == env_seq_elem(node_v(*v)),
{
    match v {
        Node::Scalar(t, _) => {
            let cs = chars_of(t.as_str());
            if cs.len() > 0 && all_word_chars_exec(&cs) {
                let mut out = cs;
                out.push('=');
                proof {
                    assert(out@ =~= t@ + seq!['=']);
                }
                string_of(&out)
            } else {
                string_of(&cs)
            }
        },
        _ => {
            let empty: Vec<char> = Vec::new();
            proof {
                assert(empty@ =~= Seq::<char>::empty());
            }
            string_of(&empty)
        },
    }
}

/// One mapping-style environment line.
fn env_map_entry_exec(k: &String, v: &Node) -> (r: String)
    ensures
        r@ == env_map_entry(k@, node_v(*v)),
{
    let tv: Vec<char>;
    match v {
        Node::Scalar(t, _) => {
            let cs = chars_of(t.as_str());
            let end = trimmed_end(&cs);
            tv = sub_chars(&cs, 0, end);
        },
        _ => {
            tv = Vec::new();
            proof {
                assert(tv@ =~= Seq::<char>::empty());
            }
        },
    }
    proof {
        assert(tv@ == env_val_text(node_v(*v)));
    }
    let mut out: Vec<char> = Vec::new();
    push_str_chars(&mut out, k);
    out.push('=');
    if contains_char(&tv, ' ') {
        if contains_char(&tv, '"') {
            out.push('\'');
            push_chars(&mut out, &tv);
            out.push('\'');
            proof {
                assert(out@ =~= k@ + seq!['=', '\''] + tv@ + seq!['\'']);
            }
        } else {
            out.push('"');
            push_chars(&mut out, &tv);
            out.push('"');
            proof {
                assert(out@ =~= k@ + seq!['=', '"'] + tv@ + seq!['"']);
            }
        }
    } else {
        push_chars(&mut out, &tv);
        proof {
            assert(out@ =~= k@ + seq!['='] + tv@);
        }
    }
    string_of(&out)
}

} // verus!
