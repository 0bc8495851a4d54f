//! Finding elements, their attributes and their text in a parsed page.
use vstd::prelude::*;
use crate::html::{DomItem, NodeKind, NodeView, end_of, items_view, node_view, subtree_end, text_of};
use crate::parse::inner_text;
use crate::text::{chars_eq, chars_of};

verus! {

/// Whether node `i` is an element called `name`.
pub open spec fn named_at(items: Seq<(int, NodeView)>, i: int, name: Seq<char>) -> bool {
    0 <= i < items.len() && (items[i].1 matches NodeView::Element(n, _, _) && n == name)
}

/// The elements called `name` among the nodes `lo` up to `hi`, in document order.
pub open spec fn named_between(items: Seq<(int, NodeView)>, name: Seq<char>, lo: int, hi: int) -> Seq<int>
    decreases hi - lo,
{
    if hi <= lo {
        Seq::empty()
    } else if named_at(items, hi - 1, name) {
        named_between(items, name, lo, hi - 1).push(hi - 1)
    } else {
        named_between(items, name, lo, hi - 1)
    }
}

/// The elements called `name` below node `i`, in document order.
pub open spec fn named_below(items: Seq<(int, NodeView)>, i: int, name: Seq<char>) -> Seq<int> {
    named_between(items, name, i + 1, subtree_end(items, i, i + 1))
}

pub open spec fn index_views(v: Seq<usize>) -> Seq<int> {
    v.map_values(|i: usize| i as int)
}

/// Whether a node is an element called `name`.
pub fn is_named(kind: &NodeKind, name: &str) -> (b: bool)
    ensures
        b == (node_view(*kind) matches NodeView::Element(n, _, _) && n == name@),
{
    match kind {
        NodeKind::Element { name: n, .. } => chars_eq(&chars_of(n.as_str()), &chars_of(name)),
        _ => false,
    }
}

/// The elements called `name` among the nodes `lo` up to `hi`.
pub fn find_named(items: &Vec<DomItem>, name: &str, lo: usize, hi: usize) -> (out: Vec<usize>)
    requires
        lo <= hi <= items@.len(),
    ensures
        index_views(out@) == named_between(items_view(items@), name@, lo as int, hi as int),
        forall|k: int| 0 <= k < out@.len() ==> lo <= #[trigger] out@[k] < hi,
{
    let ghost iv = items_view(items@);
    let mut out: Vec<usize> = Vec::new();
    let mut j = lo;
    while j < hi
        invariant
            lo <= j <= hi <= items@.len(),
            iv == items_view(items@),
            index_views(out@) == named_between(iv, name@, lo as int, j as int),
            forall|k: int| 0 <= k < out@.len() ==> lo <= #[trigger] out@[k] < j,
        decreases hi - j,
    {
        assert(iv[j as int] == (items@[j as int].depth as int, node_view(items@[j as int].kind)));
        if is_named(&items[j].kind, name) {
            let ghost before = index_views(out@);
            out.push(j);
            assert(index_views(out@) =~= before.push(j as int));
        }
        j = j + 1;
    }
    out
}

/// The elements called `name` below node `i`.
pub fn find_below(items: &Vec<DomItem>, i: usize, name: &str) -> (out: Vec<usize>)
    requires
        i < items@.len(),
    ensures
        index_views(out@) == named_below(items_view(items@), i as int, name@),
        forall|k: int| 0 <= k < out@.len() ==> i < #[trigger] out@[k] < items@.len(),
{
    let e = end_of(items, i);
    find_named(items, name, i + 1, e)
}

/// The text below node `i`.
pub fn text_below(items: &Vec<DomItem>, i: usize) -> (t: String)
    requires
        i < items@.len(),
    ensures
        t@ == inner_text(items_view(items@), i as int),
{
    let e = end_of(items, i);
    text_of(items, i + 1, e)
}

/// The value of the attribute called `name`, if there is one.
pub open spec fn attr_of(attrs: Seq<(Seq<char>, Seq<char>)>, name: Seq<char>) -> Option<Seq<char>>
    decreases attrs.len(),
{
    if attrs.len() == 0 {
        None
    } else if attrs[0].0 == name {
        Some(attrs[0].1)
    } else {
        attr_of(attrs.skip(1), name)
    }
}

/// The value of node `i`'s attribute called `name`, if it is an element with one.
pub open spec fn attr_at(items: Seq<(int, NodeView)>, i: int, name: Seq<char>) -> Option<Seq<char>> {
    if 0 <= i < items.len() {
        match items[i].1 {
            NodeView::Element(_, _, attrs) => attr_of(attrs, name),
            _ => None,
        }
    } else {
        None
    }
}

/// The value of a node's attribute called `name`.
pub fn attr(kind: &NodeKind, name: &str) -> (r: Option<String>)
    ensures
        match node_view(*kind) {
            NodeView::Element(_, _, attrs) => match r {
                Some(v) => attr_of(attrs, name@) == Some(v@),
                None => attr_of(attrs, name@) is None,
            },
            _ => r is None,
        },
{
    match kind {
        NodeKind::Element { attrs, .. } => {
            let ghost av = crate::html::attrs_view(attrs@);
            assert(node_view(*kind) matches NodeView::Element(_, _, a) && a == av);
            let key = chars_of(name);
            let mut k: usize = 0;
            assert(av.skip(0) =~= av);
            while k < attrs.len()
                invariant
                    k <= attrs@.len(),
                    av == crate::html::attrs_view(attrs@),
                    node_view(*kind) matches NodeView::Element(_, _, a) && a == av,
                    key@ == name@,
                    attr_of(av, name@) == attr_of(av.skip(k as int), name@),
                decreases attrs.len() - k,
            {
                assert(av.skip(k as int)[0] == (attrs@[k as int].0@, attrs@[k as int].1@));
                if chars_eq(&chars_of(attrs[k].0.as_str()), &key) {
                    let v = attrs[k].1.clone();
                    assert(attr_of(av.skip(k as int), name@) == Some(v@));
                    return Some(v);
                }
                assert(av.skip(k as int).skip(1) =~= av.skip(k + 1));
                k = k + 1;
            }
            None
        },
        _ => None,
    }
}

/// The first node from the `k`th on that is an element right under the document: the root
/// element.
pub open spec fn root_from(items: Seq<(int, NodeView)>, k: int) -> Option<int>
    decreases items.len() - k,
{
    if k < 0 || k >= items.len() {
        None
    } else if items[k].0 == 1 && items[k].1 is Element {
        Some(k)
    } else {
        root_from(items, k + 1)
    }
}

/// The root element of a parsed page.
pub fn root_element(items: &Vec<DomItem>) -> (r: Option<usize>)
    ensures
        match r {
            Some(i) => root_from(items_view(items@), 0) == Some(i as int) && i < items@.len(),
            None => root_from(items_view(items@), 0) is None,
        },
{
    let ghost iv = items_view(items@);
    let mut r: usize = 0;
    while r < items.len()
        invariant
            r <= items@.len(),
            iv == items_view(items@),
            root_from(iv, 0) == root_from(iv, r as int),
        decreases items.len() - r,
    {
        assert(iv[r as int] == (items@[r as int].depth as int, node_view(items@[r as int].kind)));
        let is_element = match &items[r].kind {
            NodeKind::Element { .. } => true,
            _ => false,
        };
        if items[r].depth == 1 && is_element {
            return Some(r);
        }
        r = r + 1;
    }
    None
}

/// Node `k` is an ancestor of node `j`: `j` lies below it.
pub open spec fn ancestor(items: Seq<(int, NodeView)>, k: int, j: int) -> bool {
    0 <= k < j < subtree_end(items, k, k + 1)
}

} // verus!
