//! Names and what a description's cross-references mean, stated over plain
//! sequences of names.

use vstd::prelude::*;
use crate::model::{RawJoint, RawLink, joint_names, link_names, same_bytes};

verus! {

/// Whether the item at `i` equals an earlier one.
pub open spec fn repeats<A>(items: Seq<A>, i: int) -> bool {
    exists|k: int| 0 <= k < i && #[trigger] items[k] == items[i]
}

/// Whether `i` is the first place at which an item repeats an earlier one.
pub open spec fn first_repeat<A>(items: Seq<A>, i: int) -> bool {
    &&& 0 <= i < items.len()
    &&& repeats(items, i)
    &&& forall|k: int| 0 <= k < i ==> !repeats(items, k)
}

/// Whether no item occurs twice.
pub open spec fn distinct<A>(items: Seq<A>) -> bool {
    forall|i: int| 0 <= i < items.len() ==> !repeats(items, i)
}

/// Whether `name` is one of `names`.
pub open spec fn occurs(names: Seq<Seq<u8>>, name: Seq<u8>) -> bool {
    exists|i: int| 0 <= i < names.len() && #[trigger] names[i] == name
}

/// Whether joint `j` names a parent or a child that is no link.
pub open spec fn dangles(
    links: Seq<Seq<u8>>,
    parents: Seq<Seq<u8>>,
    children: Seq<Seq<u8>>,
    j: int,
) -> bool {
    !occurs(links, parents[j]) || !occurs(links, children[j])
}

/// Whether `j` is the first joint that names a link that does not exist.
pub open spec fn first_dangling(
    links: Seq<Seq<u8>>,
    parents: Seq<Seq<u8>>,
    children: Seq<Seq<u8>>,
    j: int,
) -> bool {
    &&& 0 <= j < parents.len()
    &&& dangles(links, parents, children, j)
    &&& forall|k: int| 0 <= k < j ==> !dangles(links, parents, children, k)
}

/// Whether every joint names two links that exist.
pub open spec fn resolved(
    links: Seq<Seq<u8>>,
    parents: Seq<Seq<u8>>,
    children: Seq<Seq<u8>>,
) -> bool {
    forall|j: int| 0 <= j < parents.len() ==> !dangles(links, parents, children, j)
}

/// Whether `indices` gives, for each of `names`, a link of that name.
pub open spec fn points_to(links: Seq<Seq<u8>>, names: Seq<Seq<u8>>, indices: Seq<usize>) -> bool {
    &&& indices.len() == names.len()
    &&& forall|j: int|
        0 <= j < names.len() ==> (#[trigger] indices[j]) < links.len() && links[indices[j] as int]
            == names[j]
}

/// Whether link `l` is no joint's child.
pub open spec fn is_root(links: Seq<Seq<u8>>, children: Seq<Seq<u8>>, l: int) -> bool {
    !occurs(children, links[l])
}

/// Whether joint `j` leads from link `p` to link `l`.
pub open spec fn hop(
    links: Seq<Seq<u8>>,
    parents: Seq<Seq<u8>>,
    children: Seq<Seq<u8>>,
    j: int,
    p: int,
    l: int,
) -> bool {
    &&& 0 <= j < children.len()
    &&& 0 <= p < links.len()
    &&& children[j] == links[l]
    &&& parents[j] == links[p]
}

/// Whether link `l` hangs on a root by at most `k` joints.
pub open spec fn within(
    links: Seq<Seq<u8>>,
    parents: Seq<Seq<u8>>,
    children: Seq<Seq<u8>>,
    l: int,
    k: nat,
) -> bool
    decreases k,
{
    if k == 0 {
        is_root(links, children, l)
    } else {
        within(links, parents, children, l, (k - 1) as nat) || exists|j: int, p: int|
            #[trigger] hop(links, parents, children, j, p, l) && within(
                links,
                parents,
                children,
                p,
                (k - 1) as nat,
            )
    }
}

/// Whether link `l` hangs on a root by some chain of joints.
pub open spec fn anchored(
    links: Seq<Seq<u8>>,
    parents: Seq<Seq<u8>>,
    children: Seq<Seq<u8>>,
    l: int,
) -> bool {
    exists|k: nat| within(links, parents, children, l, k)
}

/// In a sequence without repeats, equal items stand at the same place.
pub proof fn lemma_distinct_same_place<A>(items: Seq<A>, a: int, b: int)
    requires
        distinct(items),
        0 <= a < items.len(),
        0 <= b < items.len(),
        items[a] == items[b],
    ensures
        a == b,
{
    if a < b {
        assert(repeats(items, b));
    } else if b < a {
        assert(repeats(items, a));
    }
}

/// The first place at which a link's name repeats an earlier link's, if any.
pub fn repeated_link(links: &Vec<RawLink>) -> (r: Option<usize>)
    ensures
        match r {
            Some(i) => first_repeat(link_names(links@), i as int),
            None => distinct(link_names(links@)),
        },
{
    let ghost names = link_names(links@);
    let mut i: usize = 0;
    while i < links.len()
        invariant
            i <= links.len(),
            names == link_names(links@),
            forall|k: int| 0 <= k < i ==> !repeats(names, k),
        decreases links.len() - i,
    {
        let mut k: usize = 0;
        while k < i
            invariant
                k <= i,
                i < links.len(),
                names == link_names(links@),
                forall|q: int| 0 <= q < i ==> !repeats(names, q),
                forall|q: int| 0 <= q < k ==> names[q] != names[i as int],
            decreases i - k,
        {
            if same_bytes(&links[k].name, &links[i].name) {
                assert(names[k as int] == names[i as int]);
                return Some(i);
            }
            k += 1;
        }
        i += 1;
    }
    None
}

/// The first link called `name`, if there is one.
pub fn position(links: &Vec<RawLink>, name: &Vec<u8>) -> (r: Option<usize>)
    ensures
        match r {
            Some(i) => i < links.len() && link_names(links@)[i as int] == name@ && forall|k: int|
                0 <= k < i ==> link_names(links@)[k] != name@,
            None => !occurs(link_names(links@), name@),
        },
{
    let mut i: usize = 0;
    while i < links.len()
        invariant
            i <= links.len(),
            forall|k: int| 0 <= k < i ==> link_names(links@)[k] != name@,
        decreases links.len() - i,
    {
        if same_bytes(&links[i].name, name) {
            return Some(i);
        }
        i += 1;
    }
    None
}

/// The first place at which a joint's name repeats an earlier joint's, if
/// any.
pub fn repeated_joint(joints: &Vec<RawJoint>) -> (r: Option<usize>)
    ensures
        match r {
            Some(i) => first_repeat(joint_names(joints@), i as int),
            None => distinct(joint_names(joints@)),
        },
{
    let ghost names = joint_names(joints@);
    let mut i: usize = 0;
    while i < joints.len()
        invariant
            i <= joints.len(),
            names == joint_names(joints@),
            forall|k: int| 0 <= k < i ==> !repeats(names, k),
        decreases joints.len() - i,
    {
        let mut k: usize = 0;
        while k < i
            invariant
                k <= i,
                i < joints.len(),
                names == joint_names(joints@),
                forall|q: int| 0 <= q < i ==> !repeats(names, q),
                forall|q: int| 0 <= q < k ==> names[q] != names[i as int],
            decreases i - k,
        {
            if same_bytes(&joints[k].name, &joints[i].name) {
                assert(names[k as int] == names[i as int]);
                return Some(i);
            }
            k += 1;
        }
        i += 1;
    }
    None
}

/// Where each name is resolved to a link and link names are distinct, two
/// names are equal exactly when they resolve to the same link.
pub proof fn lemma_repeats_by_index(
    links: Seq<Seq<u8>>,
    names: Seq<Seq<u8>>,
    indices: Seq<usize>,
    j: int,
)
    requires
        distinct(links),
        points_to(links, names, indices),
        0 <= j < names.len(),
    ensures
        repeats(names, j) <==> repeats(indices, j),
{
    if repeats(names, j) {
        let k = choose|k: int| 0 <= k < j && #[trigger] names[k] == names[j];
        assert(indices[k] < links.len() && indices[j] < links.len());
        lemma_distinct_same_place(links, indices[k] as int, indices[j] as int);
        assert(indices[k] == indices[j]);
    }
    if repeats(indices, j) {
        let k = choose|k: int| 0 <= k < j && #[trigger] indices[k] == indices[j];
        assert(names[k] == names[j]);
    }
}

} // verus!
