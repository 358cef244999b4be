//! Document model: an immutable tree of element and text nodes.

use vstd::prelude::*;

verus! {

/// A document node: an element with a tag, an attribute mapping and
/// ordered children, or a run of text.
pub enum Node {
    Element { tag: String, attrs: Vec<(String, String)>, children: Vec<Node> },
    Text { content: String },
}

/// Mathematical model of a node: all strings as character sequences.
pub enum NodeV {
    Element { tag: Seq<char>, attrs: Seq<(Seq<char>, Seq<char>)>, children: Seq<NodeV> },
    Text { content: Seq<char> },
}

/// First value bound to `name` in an attribute mapping, if any.
pub open spec fn attr_lookup(attrs: Seq<(Seq<char>, Seq<char>)>, name: Seq<char>) -> Option<
    Seq<char>,
>
    decreases attrs.len(),
{
    if attrs.len() == 0 {
        None
    } else if attrs[0].0 == name {
        Some(attrs[0].1)
    } else {
        attr_lookup(attrs.drop_first(), name)
    }
}

/// Model of an attribute list.
pub open spec fn attrs_view(attrs: Seq<(String, String)>) -> Seq<(Seq<char>, Seq<char>)> {
    attrs.map_values(|p: (String, String)| (p.0@, p.1@))
}

impl Node {
    /// Model of the tree rooted at this node.
    pub open spec fn view(self) -> NodeV
        decreases self,
    {
        match self {
            Node::Element { tag, attrs, children } => NodeV::Element {
                tag: tag@,
                attrs: attrs_view(attrs@),
                children: Node::view_seq(children@),
            },
            Node::Text { content } => NodeV::Text { content: content@ },
        }
    }

    /// Model of a forest.
    pub open spec fn view_seq(s: Seq<Node>) -> Seq<NodeV>
        decreases s,
    {
        if s.len() == 0 {
            Seq::empty()
        } else {
            Node::view_seq(s.drop_last()).push(s.last().view())
        }
    }

    /// `view_seq` maps the forest element by element.
    pub proof fn lemma_view_seq(s: Seq<Node>)
        ensures
            Node::view_seq(s).len() == s.len(),
            forall|i: int| 0 <= i < s.len() ==> Node::view_seq(s)[i] == (#[trigger] s[i]).view(),
        decreases s,
    {
        if s.len() > 0 {
            Node::lemma_view_seq(s.drop_last());
            assert forall|i: int| 0 <= i < s.len() implies Node::view_seq(s)[i] == (
            #[trigger] s[i]).view() by {
                if i < s.len() - 1 {
                    assert(s.drop_last()[i] == s[i]);
                } else {
                    assert(s[i] == s.last());
                }
            }
        }
    }
}

impl NodeV {
    /// Number of nodes in the tree rooted here, the root included.
    pub open spec fn count(self) -> nat
        decreases self,
    {
        match self {
            NodeV::Element { children, .. } => 1 + NodeV::count_seq(children),
            NodeV::Text { .. } => 1,
        }
    }

    /// Total node count of a forest.
    pub open spec fn count_seq(s: Seq<NodeV>) -> nat
        decreases s,
    {
        if s.len() == 0 {
            0
        } else {
            s.last().count() + NodeV::count_seq(s.drop_last())
        }
    }
}

/// Look an attribute up by name.
pub fn get_attr<'a>(attrs: &'a Vec<(String, String)>, name: &String) -> (r: Option<&'a String>)
    ensures
        match r {
            Some(v) => attr_lookup(attrs_view(attrs@), name@) == Some(v@),
            None => attr_lookup(attrs_view(attrs@), name@) is None,
        },
{
    let mut i: usize = 0;
    proof {
        assert(attrs_view(attrs@.skip(0)) =~= attrs_view(attrs@));
    }
    while i < attrs.len()
        invariant
            0 <= i <= attrs@.len(),
            attr_lookup(attrs_view(attrs@), name@) == attr_lookup(
                attrs_view(attrs@.skip(i as int)),
                name@,
            ),
        decreases attrs@.len() - i,
    {
        proof {
            assert(attrs_view(attrs@.skip(i as int))[0] == (attrs@[i as int].0@, attrs@[
                i as int].1@));
            assert(attrs_view(attrs@.skip(i as int)).drop_first() =~= attrs_view(
                attrs@.skip(i as int + 1),
            ));
        }
        if attrs[i].0 == *name {
            return Some(&attrs[i].1);
        }
        i = i + 1;
    }
    None
}

} // verus!
