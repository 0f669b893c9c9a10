//! A textual rendering of the tree: each named node is `Name(children...)`
//! (just `Name` without children), and an unnamed node is transparent, its
//! children standing in its place.

use crate::arena::NodeView;
use crate::composer::Composer;
use crate::runtime::Runtime;
use vstd::prelude::*;
use vstd::string::StringExecFns;

verus! {

/// The items of `items` separated by `", "`.
pub open spec fn join(items: Seq<Seq<char>>) -> Seq<char>
    decreases items.len(),
{
    if items.len() == 0 {
        Seq::empty()
    } else if items.len() == 1 {
        items[0]
    } else {
        join(items.drop_last()) + seq![',', ' '] + items.last()
    }
}

/// `name`, followed by the items in parentheses when there are any.
pub open spec fn group(name: Seq<char>, items: Seq<Seq<char>>) -> Seq<char> {
    if items.len() == 0 {
        name
    } else {
        name + seq!['('] + join(items) + seq![')']
    }
}

/// What node `k` contributes to its parent's group, looking at most `fuel`
/// levels down.
pub open spec fn node_items(m: Map<u64, NodeView>, k: u64, fuel: nat) -> Seq<Seq<char>>
    decreases fuel, 0nat,
{
    if fuel == 0 {
        Seq::empty()
    } else {
        let kids = list_items(m, m[k].children, (fuel - 1) as nat);
        match m[k].name {
            Some(n) => seq![group(n, kids)],
            None => kids,
        }
    }
}

/// The items of the nodes `ks`, in order.
pub open spec fn list_items(m: Map<u64, NodeView>, ks: Seq<u64>, fuel: nat) -> Seq<Seq<char>>
    decreases fuel, ks.len(),
{
    if ks.len() == 0 {
        Seq::empty()
    } else {
        list_items(m, ks.drop_last(), fuel) + node_items(m, ks.last(), fuel)
    }
}

/// The views of a list of strings.
pub open spec fn views(v: Seq<String>) -> Seq<Seq<char>> {
    v.map_values(|s: String| s@)
}

fn push_items(rt: &Runtime, k: u64, fuel: usize, out: &mut Vec<String>)
    requires
        rt.wf(),
        rt.nodes().contains_key(k),
    ensures
        views(final(out)@) == views(old(out)@) + node_items(rt.nodes(), k, fuel as nat),
    decreases fuel, 0nat,
{
    proof {
        crate::runtime::lemma_pending_paths(rt);
    }
    if fuel == 0 {
        assert(views(out@) =~= views(out@) + Seq::<Seq<char>>::empty());
        return;
    }
    let name = rt.name(k);
    let children = rt.children(k);
    match name {
        Some(n) => {
            let mut kids: Vec<String> = Vec::new();
            push_list(rt, children, children.len(), fuel - 1, &mut kids);
            proof {
                assert(children@.subrange(0, children@.len() as int) =~= children@);
                assert(views(kids@) =~= Seq::<Seq<char>>::empty() + list_items(
                    rt.nodes(),
                    children@,
                    (fuel - 1) as nat,
                ));
            }
            let s = render_group(n, &kids);
            let ghost before = views(out@);
            out.push(s);
            proof {
                assert(views(out@) =~= before + seq![s@]);
            }
        },
        None => {
            push_list(rt, children, children.len(), fuel - 1, out);
            proof {
                assert(children@.subrange(0, children@.len() as int) =~= children@);
            }
        },
    }
}

fn push_list(rt: &Runtime, ks: &Vec<u64>, n: usize, fuel: usize, out: &mut Vec<String>)
    requires
        rt.wf(),
        n <= ks@.len(),
        forall|i: int| 0 <= i < ks@.len() ==> rt.nodes().contains_key(#[trigger] ks@[i]),
    ensures
        views(final(out)@) == views(old(out)@) + list_items(
            rt.nodes(),
            ks@.subrange(0, n as int),
            fuel as nat,
        ),
    decreases fuel, n,
{
    if n == 0 {
        assert(views(out@) =~= views(out@) + Seq::<Seq<char>>::empty());
        return;
    }
    push_list(rt, ks, n - 1, fuel, out);
    push_items(rt, ks[n - 1], fuel, out);
    proof {
        let s = ks@.subrange(0, n as int);
        assert(s.drop_last() =~= ks@.subrange(0, n - 1));
        assert(s.last() == ks@[n - 1]);
    }
}

fn render_group(name: &String, items: &Vec<String>) -> (r: String)
    ensures
        r@ == group(name@, views(items@)),
{
    let mut s = name.clone();
    if items.len() == 0 {
        return s;
    }
    proof {
        reveal_strlit("(");
        reveal_strlit(")");
        reveal_strlit(", ");
    }
    proof {
        assert("("@ =~= seq!['(']);
        assert(")"@ =~= seq![')']);
    }
    s.append("(");
    let mut i: usize = 0;
    while i < items.len()
        invariant
            0 <= i <= items@.len(),
            items@.len() > 0,
            i == 0 ==> s@ == name@ + seq!['('],
            i > 0 ==> s@ == name@ + seq!['('] + join(views(items@.subrange(0, i as int))),
        decreases items.len() - i,
    {
        let ghost prev = s@;
        if i > 0 {
            proof {
                reveal_strlit(", ");
                assert(", "@ =~= seq![',', ' ']);
            }
            s.append(", ");
            assert(s@ =~= prev + seq![',', ' ']);
        }
        s.append(items[i].as_str());
        proof {
            let v = views(items@.subrange(0, i + 1));
            assert(v.drop_last() =~= views(items@.subrange(0, i as int)));
            assert(v.last() == items@[i as int]@);
            if i == 0 {
                assert(v.len() == 1);
                assert(s@ =~= name@ + seq!['('] + join(v));
            } else {
                assert(s@ =~= name@ + seq!['('] + join(v));
            }
        }
        i = i + 1;
    }
    s.append(")");
    proof {
        assert(items@.subrange(0, items@.len() as int) =~= items@);
    }
    s
}

impl Composer {
    /// The tree rendered as `Composer(...)`, looking as many levels down as
    /// there are nodes (more than any path is long).
    pub fn debug_string(&self) -> (r: String)
        requires
            self.wf(),
        ensures
            r@ == group(
                seq!['C', 'o', 'm', 'p', 'o', 's', 'e', 'r'],
                node_items(self.rt_view().nodes(), self.rt_view().root_key(), self.rt_view().nodes().len()),
            ),
    {
        let rt = self.runtime();
        proof {
            crate::runtime::lemma_pending_paths(rt);
        }
        let mut items: Vec<String> = Vec::new();
        push_items(rt, rt.root(), rt.len(), &mut items);
        proof {
            assert(views(items@) =~= node_items(rt.nodes(), rt.root_key(), rt.nodes().len()));
            reveal_strlit("Composer");
        }
        let label = String::from_str("Composer");
        proof {
            assert(label@ =~= seq!['C', 'o', 'm', 'p', 'o', 's', 'e', 'r']);
        }
        render_group(&label, &items)
    }
}

} // verus!
