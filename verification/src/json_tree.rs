//! A JSON value as a document tree: each value, array element, object pair
//! and key is a node of a forest.

use vstd::prelude::*;
use crate::forest::{Forest, ForestV, NodeIndex, ancestor, within};
use crate::json_parser::{Json, JsonV, json_view};

verus! {

/// The construct of a node of a JSON document.
#[derive(Debug, Clone, Copy, PartialEq, Eq, Structural)]
pub enum JsonConstruct {
    Root,
    Null,
    True,
    False,
    Number,
    String,
    Array,
    Object,
    ObjectPair,
    Key,
}

/// What a node of a JSON document holds: its construct, and the text of a
/// number, a string or a key.
#[derive(Debug, Clone, PartialEq, Eq)]
pub struct JsonNode {
    pub construct: JsonConstruct,
    pub text: Option<String>,
}

/// The text of a node, as a sequence of characters.
pub open spec fn text_of(d: JsonNode) -> Option<Seq<char>> {
    match d.text {
        Some(t) => Some(t@),
        None => None,
    }
}

/// Node `n` of `v` has construct `c`, text `t` and `k` children, and was made
/// no earlier than `lo`.
pub open spec fn node_is(
    v: ForestV<JsonNode>,
    n: NodeIndex,
    c: JsonConstruct,
    t: Option<Seq<char>>,
    k: nat,
    lo: nat,
) -> bool {
    &&& v.children.contains_key(n)
    &&& lo <= n.slot()
    &&& v.data[n].construct == c
    &&& text_of(v.data[n]) == t
    &&& v.children[n].len() == k
}

/// Node `p` of `v` is a pair whose first child is a key with text `key`,
/// both made no earlier than `lo`.
pub open spec fn pair_shape(v: ForestV<JsonNode>, p: NodeIndex, key: Seq<char>, lo: nat) -> bool {
    &&& node_is(v, p, JsonConstruct::ObjectPair, None, 2, lo)
    &&& node_is(v, v.children[p][0], JsonConstruct::Key, Some(key), 0, lo)
}

/// The tree at `n` in `v` holds the JSON value `j`, and all of its nodes were
/// made no earlier than `lo`. An array's elements are its children; an
/// object's children are its pairs, each with a key and a value.
pub open spec fn holds(v: ForestV<JsonNode>, n: NodeIndex, j: JsonV, lo: nat) -> bool
    decreases j,
{
    match j {
        JsonV::Null => node_is(v, n, JsonConstruct::Null, None, 0, lo),
        JsonV::True => node_is(v, n, JsonConstruct::True, None, 0, lo),
        JsonV::False => node_is(v, n, JsonConstruct::False, None, 0, lo),
        JsonV::Number(s) => node_is(v, n, JsonConstruct::Number, Some(s), 0, lo),
        JsonV::String(s) => node_is(v, n, JsonConstruct::String, Some(s), 0, lo),
        JsonV::Array(elems) => {
            &&& node_is(v, n, JsonConstruct::Array, None, elems.len(), lo)
            &&& forall|i: int|
                #![trigger elems[i]]
                0 <= i < elems.len() ==> holds(v, v.children[n][i], elems[i], lo)
        },
        JsonV::Object(pairs) => {
            &&& node_is(v, n, JsonConstruct::Object, None, pairs.len(), lo)
            &&& forall|i: int|
                #![trigger pairs[i]]
                0 <= i < pairs.len() ==> {
                    &&& pair_shape(v, v.children[n][i], pairs[i].0, lo)
                    &&& holds(v, v.children[v.children[n][i]][1], pairs[i].1, lo)
                }
        },
    }
}

/// Every node of `v0` made no earlier than `lo` is in `v1` with the same
/// children and data.
pub open spec fn kept_from(v0: ForestV<JsonNode>, v1: ForestV<JsonNode>, lo: nat) -> bool {
    forall|m: NodeIndex|
        #[trigger] v0.children.contains_key(m) && lo <= m.slot() ==> v1.children.contains_key(m)
            && v1.children[m] == v0.children[m] && v1.data[m] == v0.data[m]
}

/// A tree is unchanged by changes to nodes made before it.
proof fn lemma_holds_kept(v0: ForestV<JsonNode>, v1: ForestV<JsonNode>, n: NodeIndex, j: JsonV, lo: nat)
    requires
        holds(v0, n, j, lo),
        kept_from(v0, v1, lo),
    ensures
        holds(v1, n, j, lo),
    decreases j,
{
    match j {
        JsonV::Array(elems) => {
            assert(v0.children.contains_key(n));
            assert forall|i: int| 0 <= i < elems.len() implies holds(
                v1,
                v1.children[n][i],
                #[trigger] elems[i],
                lo,
            ) by {
                lemma_holds_kept(v0, v1, v0.children[n][i], elems[i], lo);
            }
        },
        JsonV::Object(pairs) => {
            assert(v0.children.contains_key(n));
            assert forall|i: int|
                #![trigger pairs[i]]
                0 <= i < pairs.len() implies {
                    &&& pair_shape(v1, v1.children[n][i], pairs[i].0, lo)
                    &&& holds(v1, v1.children[v1.children[n][i]][1], pairs[i].1, lo)
                } by {
                let p = v0.children[n][i];
                assert(node_is(v0, p, JsonConstruct::ObjectPair, None, 2, lo));
                assert(v0.children.contains_key(p));
                assert(v0.children.contains_key(v0.children[p][0]));
                lemma_holds_kept(v0, v1, v0.children[p][1], pairs[i].1, lo);
            }
        },
        _ => {
            assert(v0.children.contains_key(n));
        },
    }
}

/// A tree whose nodes were all made no earlier than `lo` has all its nodes
/// made no earlier than any bound below `lo`.
proof fn lemma_holds_lower(v: ForestV<JsonNode>, n: NodeIndex, j: JsonV, lo: nat, lo2: nat)
    requires
        holds(v, n, j, lo),
        lo2 <= lo,
    ensures
        holds(v, n, j, lo2),
    decreases j,
{
    match j {
        JsonV::Array(elems) => {
            assert forall|i: int| 0 <= i < elems.len() implies holds(
                v,
                v.children[n][i],
                #[trigger] elems[i],
                lo2,
            ) by {
                lemma_holds_lower(v, v.children[n][i], elems[i], lo, lo2);
            }
        },
        JsonV::Object(pairs) => {
            assert forall|i: int|
                #![trigger pairs[i]]
                0 <= i < pairs.len() implies {
                    &&& pair_shape(v, v.children[n][i], pairs[i].0, lo2)
                    &&& holds(v, v.children[v.children[n][i]][1], pairs[i].1, lo2)
                } by {
                let p = v.children[n][i];
                assert(node_is(v, p, JsonConstruct::ObjectPair, None, 2, lo));
                assert(node_is(v, v.children[p][0], JsonConstruct::Key, Some(pairs[i].0), 0, lo));
                lemma_holds_lower(v, v.children[p][1], pairs[i].1, lo, lo2);
            }
        },
        _ => {},
    }
}

/// A root is within no tree but its own.
proof fn lemma_root_within(v: ForestV<JsonNode>, r: NodeIndex, x: NodeIndex)
    requires
        v.parent[r] is None,
        r != x,
    ensures
        !within(v, r, x),
{
    let k = (v.depth[r] - v.depth[x]) as nat;
    if k > 0 {
        assert(ancestor(v, r, k) == r);
    }
}

/// A new root node holding `construct` and `text`, with no children.
fn leaf(f: &mut Forest<JsonNode>, construct: JsonConstruct, text: Option<String>) -> (n: NodeIndex)
    requires
        old(f).wf(),
    ensures
        final(f).wf(),
        !old(f)@.children.contains_key(n),
        final(f)@.children == old(f)@.children.insert(n, Seq::empty()),
        final(f)@.parent == old(f)@.parent.insert(n, None),
        final(f)@.data == old(f)@.data.insert(n, JsonNode { construct, text }),
        forall|m: NodeIndex| old(f)@.children.contains_key(m) ==> m.slot() < n.slot(),
{
    f.new_node(JsonNode { construct, text })
}

/// The tree of the JSON value `json`, built of new nodes of `f`; its top is a
/// root. The nodes already in `f` keep their children, data and parents.
fn convert(f: &mut Forest<JsonNode>, json: &Json) -> (n: NodeIndex)
    requires
        old(f).wf(),
    ensures
        final(f).wf(),
        holds(final(f)@, n, json_view(*json), n.slot()),
        final(f)@.parent[n] is None,
        forall|m: NodeIndex| #[trigger]
            old(f)@.children.contains_key(m) ==> m.slot() < n.slot() && final(f)@.children.contains_key(m)
                && final(f)@.children[m] == old(f)@.children[m] && final(f)@.data[m]
                == old(f)@.data[m] && final(f)@.parent[m] == old(f)@.parent[m],
    decreases json,
{
    match json {
        Json::Null => leaf(f, JsonConstruct::Null, None),
        Json::True => leaf(f, JsonConstruct::True, None),
        Json::False => leaf(f, JsonConstruct::False, None),
        Json::Number(s) => leaf(f, JsonConstruct::Number, Some(s.clone())),
        Json::String(s) => leaf(f, JsonConstruct::String, Some(s.clone())),
        Json::Array(elems) => {
            let ghost f0 = f@;
            let ghost jv = json_view(*json);
            let ghost ev = jv->Array_0;
            let arr = leaf(f, JsonConstruct::Array, None);
            let ghost lo: nat = arr.slot() + 1;
            let mut i: usize = 0;
            while i < elems.len()
                invariant
                    f.wf(),
                    i <= elems@.len(),
                    *json == Json::Array(*elems),
                    ev.len() == elems@.len(),
                    forall|k: int| 0 <= k < elems@.len() ==> ev[k] == json_view(#[trigger] elems@[k]),
                    lo == arr.slot() + 1,
                    f@.children.contains_key(arr),
                    f@.parent[arr] is None,
                    f@.data[arr] == (JsonNode { construct: JsonConstruct::Array, text: None }),
                    f@.children[arr].len() == i,
                    forall|k: int|
                        0 <= k < i ==> holds(f@, f@.children[arr][k], #[trigger] ev[k], lo),
                    forall|m: NodeIndex| #[trigger]
                        f0.children.contains_key(m) ==> m.slot() < arr.slot()
                            && f@.children.contains_key(m) && f@.children[m] == f0.children[m]
                            && f@.data[m] == f0.data[m] && f@.parent[m] == f0.parent[m],
                decreases elems@.len() - i,
            {
                let ghost fh = f@;
                proof {
                    assert(json->Array_0 == *elems);
                    assert(decreases_to!(*json => json->Array_0));
                    assert(decreases_to!(*elems => elems@));
                    assert(decreases_to!(elems@ => elems@[i as int]));
                }
                let e = convert(f, &elems[i]);
                let ghost fc = f@;
                proof {
                    lemma_root_within(fc, arr, e);
                }
                f.insert_last_child(arr, e);
                proof {
                    assert(kept_from(fh, f@, lo));
                    assert forall|k: int| 0 <= k < i + 1 implies holds(
                        f@,
                        f@.children[arr][k],
                        #[trigger] ev[k],
                        lo,
                    ) by {
                        if k < i {
                            lemma_holds_kept(fh, f@, fh.children[arr][k], ev[k], lo);
                        } else {
                            assert(kept_from(fc, f@, e.slot()));
                            lemma_holds_kept(fc, f@, e, ev[k], e.slot());
                            lemma_holds_lower(f@, e, ev[k], e.slot(), lo);
                        }
                    }
                }
                i += 1;
            }
            proof {
                assert(holds(f@, arr, jv, arr.slot())) by {
                    assert forall|k: int| 0 <= k < ev.len() implies holds(
                        f@,
                        f@.children[arr][k],
                        #[trigger] ev[k],
                        arr.slot(),
                    ) by {
                        lemma_holds_lower(f@, f@.children[arr][k], ev[k], lo, arr.slot());
                    }
                }
            }
            arr
        },
        Json::Object(pairs) => {
            let ghost f0 = f@;
            let ghost jv = json_view(*json);
            let ghost pv = jv->Object_0;
            let obj = leaf(f, JsonConstruct::Object, None);
            let ghost lo: nat = obj.slot() + 1;
            let mut i: usize = 0;
            while i < pairs.len()
                invariant
                    f.wf(),
                    i <= pairs@.len(),
                    *json == Json::Object(*pairs),
                    pv.len() == pairs@.len(),
                    forall|k: int|
                        0 <= k < pairs@.len() ==> #[trigger] pv[k] == (
                        pairs@[k].0@,
                        json_view(pairs@[k].1),
                        ),
                    lo == obj.slot() + 1,
                    f@.children.contains_key(obj),
                    f@.parent[obj] is None,
                    f@.data[obj] == (JsonNode { construct: JsonConstruct::Object, text: None }),
                    f@.children[obj].len() == i,
                    forall|k: int|
                        #![trigger pv[k]]
                        0 <= k < i ==> {
                            &&& pair_shape(f@, f@.children[obj][k], pv[k].0, lo)
                            &&& holds(f@, f@.children[f@.children[obj][k]][1], pv[k].1, lo)
                        },
                    forall|m: NodeIndex| #[trigger]
                        f0.children.contains_key(m) ==> m.slot() < obj.slot()
                            && f@.children.contains_key(m) && f@.children[m] == f0.children[m]
                            && f@.data[m] == f0.data[m] && f@.parent[m] == f0.parent[m],
                decreases pairs@.len() - i,
            {
                let ghost fh = f@;
                let key = leaf(f, JsonConstruct::Key, Some(pairs[i].0.clone()));
                let ghost fk = f@;
                proof {
                    assert(json->Object_0 == *pairs);
                    assert(decreases_to!(*json => json->Object_0));
                    assert(decreases_to!(*pairs => pairs@));
                    assert(decreases_to!(pairs@ => pairs@[i as int]));
                    assert(decreases_to!(pairs@[i as int] => pairs@[i as int].1));
                }
                let val = convert(f, &pairs[i].1);
                let ghost fv = f@;
                proof {
                    assert(fk.children.contains_key(key));
                    assert(fv.children.contains_key(key));
                    assert(fv.children.contains_key(val));
                    assert(fh.children.contains_key(obj));
                    assert(fk.children.contains_key(obj));
                    assert(fv.children.contains_key(obj));
                }
                let pair = leaf(f, JsonConstruct::ObjectPair, None);
                proof {
                    assert(key.slot() < pair.slot() && val.slot() < pair.slot());
                    lemma_root_within(f@, pair, key);
                }
                f.insert_last_child(pair, key);
                proof {
                    lemma_root_within(f@, pair, val);
                }
                f.insert_last_child(pair, val);
                proof {
                    lemma_root_within(f@, obj, pair);
                }
                f.insert_last_child(obj, pair);
                proof {
                    assert forall|m: NodeIndex| #[trigger]
                        fh.children.contains_key(m) && m != obj implies f@.children.contains_key(m)
                            && f@.children[m] == fh.children[m] && f@.data[m] == fh.data[m]
                            && f@.parent[m] == fh.parent[m] by {
                        assert(fk.children.contains_key(m));
                        assert(fv.children.contains_key(m));
                    }
                    assert(kept_from(fh, f@, lo));
                    assert(kept_from(fv, f@, val.slot()));
                    lemma_holds_kept(fv, f@, val, pv[i as int].1, val.slot());
                    lemma_holds_lower(f@, val, pv[i as int].1, val.slot(), lo);
                    assert forall|k: int|
                        #![trigger pv[k]]
                        0 <= k < i + 1 implies {
                            &&& pair_shape(f@, f@.children[obj][k], pv[k].0, lo)
                            &&& holds(f@, f@.children[f@.children[obj][k]][1], pv[k].1, lo)
                        } by {
                        if k < i {
                            let p = fh.children[obj][k];
                            assert(fh.children.contains_key(p));
                            assert(fh.children.contains_key(fh.children[p][0]));
                            lemma_holds_kept(fh, f@, fh.children[p][1], pv[k].1, lo);
                        } else {
                            assert(f@.children[obj][k] == pair);
                            assert(f@.children[pair] =~= seq![key, val]);
                        }
                    }
                }
                i += 1;
            }
            proof {
                assert(holds(f@, obj, jv, obj.slot())) by {
                    assert forall|k: int|
                        #![trigger pv[k]]
                        0 <= k < pv.len() implies {
                            &&& pair_shape(f@, f@.children[obj][k], pv[k].0, obj.slot())
                            &&& holds(f@, f@.children[f@.children[obj][k]][1], pv[k].1, obj.slot())
                        } by {
                        let p = f@.children[obj][k];
                        lemma_holds_lower(f@, f@.children[p][1], pv[k].1, lo, obj.slot());
                    }
                }
            }
            obj
        },
    }
}

/// The document tree of a JSON value: a `Root` node, in a forest of its own,
/// whose one child is the tree of `json`.
pub fn json_to_tree(json: &Json) -> (r: (Forest<JsonNode>, NodeIndex))
    ensures
        r.0.wf(),
        r.0@.parent[r.1] is None,
        node_is(r.0@, r.1, JsonConstruct::Root, None, 1, 0),
        holds(r.0@, r.0@.children[r.1][0], json_view(*json), 0),
{
    let mut f = Forest::new(JsonNode { construct: JsonConstruct::Null, text: None });
    let top = convert(&mut f, json);
    let ghost fc = f@;
    let root = leaf(&mut f, JsonConstruct::Root, None);
    proof {
        lemma_root_within(f@, root, top);
    }
    f.insert_last_child(root, top);
    proof {
        assert(kept_from(fc, f@, top.slot()));
        lemma_holds_kept(fc, f@, top, json_view(*json), top.slot());
        lemma_holds_lower(f@, top, json_view(*json), top.slot(), 0);
    }
    (f, root)
}

} // verus!
