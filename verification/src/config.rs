//! The configuration tree of the target: the files that the root file
//! includes, directly or not, and the shortcuts that are in effect in it.

use crate::dictionary::{
    last_definition, lemma_index_of, lemma_last_definition_wins, lemma_put_all_concat, lookup, pairs_view, put_all,
    Pairs, ShortcutSet,
};
use crate::directive::{include_in, include_of, keybind_in, keybind_of};
use crate::text::{lines, rows, split_lines};
use std::collections::VecDeque;
use vstd::prelude::*;

verus! {

/// The model of a vector of names.
pub open spec fn names(v: Seq<String>) -> Seq<Seq<char>> {
    Seq::new(v.len(), |i: int| v[i]@)
}

/// The files that the lines include, in the order of the lines.
pub open spec fn includes_in(ls: Seq<Seq<char>>) -> Seq<Seq<char>>
    decreases ls.len(),
{
    if ls.len() == 0 {
        Seq::empty()
    } else {
        let rest = includes_in(ls.drop_last());
        match include_of(ls.last()) {
            Some(name) => rest.push(name),
            None => rest,
        }
    }
}

/// The bindings that the lines define, as (action, trigger), in the order of
/// the lines.
pub open spec fn bindings_in(ls: Seq<Seq<char>>) -> Pairs
    decreases ls.len(),
{
    if ls.len() == 0 {
        Pairs::empty()
    } else {
        let rest = bindings_in(ls.drop_last());
        match keybind_of(ls.last()) {
            Some(d) => rest.push((d.1, d.0)),
            None => rest,
        }
    }
}

/// The names of the files that a configuration text includes, in the order
/// of its lines.
pub fn include_targets(text: &str) -> (r: Vec<String>)
    ensures
        names(r@) == includes_in(lines(text@)),
{
    let ls = split_lines(text);
    let mut r: Vec<String> = Vec::new();
    let mut i: usize = 0;
    while i < ls.len()
        invariant
            i <= ls.len(),
            names(r@) == includes_in(rows(ls@).take(i as int)),
        decreases ls.len() - i,
    {
        let ghost before = names(r@);
        proof {
            let next = rows(ls@).take(i + 1);
            assert(next.drop_last() =~= rows(ls@).take(i as int));
            assert(next.last() == ls@[i as int]@);
        }
        match include_in(&ls[i]) {
            Some(name) => {
                r.push(name);
                assert(names(r@) =~= before.push(name@));
            },
            None => {},
        }
        i += 1;
    }
    assert(rows(ls@).take(ls.len() as int) =~= rows(ls@));
    r
}

/// The bindings that a configuration text defines, as (action, trigger), in
/// the order of its lines.
pub fn keybinds(text: &str) -> (r: Vec<(String, String)>)
    ensures
        pairs_view(r@) == bindings_in(lines(text@)),
{
    let ls = split_lines(text);
    let mut r: Vec<(String, String)> = Vec::new();
    let mut i: usize = 0;
    while i < ls.len()
        invariant
            i <= ls.len(),
            pairs_view(r@) == bindings_in(rows(ls@).take(i as int)),
        decreases ls.len() - i,
    {
        let ghost before = pairs_view(r@);
        proof {
            let next = rows(ls@).take(i + 1);
            assert(next.drop_last() =~= rows(ls@).take(i as int));
            assert(next.last() == ls@[i as int]@);
        }
        match keybind_in(&ls[i]) {
            Some(d) => {
                let ghost pair = (d.1@, d.0@);
                r.push((d.1, d.0));
                assert(pairs_view(r@) =~= before.push(pair));
            },
            None => {},
        }
        i += 1;
    }
    assert(rows(ls@).take(ls.len() as int) =~= rows(ls@));
    r
}

/// One configuration file: its path and its text. The text of a file that
/// cannot be read is empty.
#[derive(Clone, Debug, PartialEq, Eq)]
pub struct ConfigNode {
    pub path: String,
    pub text: String,
}

/// A configuration tree: the root file and the files that it includes,
/// directly or not, in the order of their discovery.
pub type ConfigTree = Vec<ConfigNode>;

impl ConfigNode {
    /// The names of the files that this file includes, in the order of its
    /// lines.
    pub fn includes(&self) -> (r: Vec<String>)
        ensures
            names(r@) == includes_in(lines(self.text@)),
    {
        include_targets(self.text.as_str())
    }

    /// The bindings that this file defines, as (action, trigger), in the
    /// order of its lines.
    pub fn bindings(&self) -> (r: Vec<(String, String)>)
        ensures
            pairs_view(r@) == bindings_in(lines(self.text@)),
    {
        keybinds(self.text.as_str())
    }
}

/// The bindings that the files define, as (action, trigger): file after
/// file, and in each file line after line.
pub open spec fn all_bindings(nodes: Seq<ConfigNode>) -> Pairs
    decreases nodes.len(),
{
    if nodes.len() == 0 {
        Pairs::empty()
    } else {
        all_bindings(nodes.drop_last()) + bindings_in(lines(nodes.last().text@))
    }
}

/// Shadowing across the tree: the binding in effect for an action is its
/// last definition, counting file after file in the order of discovery and
/// line after line in each file. An action that no file defines has none.
pub proof fn lemma_effective_is_last_definition(nodes: Seq<ConfigNode>, action: Seq<char>)
    ensures
        lookup(put_all(Pairs::empty(), all_bindings(nodes)), action) == last_definition(
            all_bindings(nodes),
            action,
        ),
{
    lemma_last_definition_wins(Pairs::empty(), all_bindings(nodes), action);
    lemma_index_of(Pairs::empty(), action);
}

/// The shortcuts in effect in a configuration tree whose files are given in
/// the order of their discovery. Of several bindings of one action the last
/// stands: that of the file discovered last, and in it that of the last
/// line.
pub fn resolve(nodes: &ConfigTree) -> (r: ShortcutSet)
    ensures
        r@ == put_all(Pairs::empty(), all_bindings(nodes@)),
{
    let mut r = ShortcutSet::new();
    let mut i: usize = 0;
    while i < nodes.len()
        invariant
            i <= nodes.len(),
            r@ == put_all(Pairs::empty(), all_bindings(nodes@.take(i as int))),
        decreases nodes.len() - i,
    {
        let found = nodes[i].bindings();
        proof {
            let next = nodes@.take(i + 1);
            assert(next.drop_last() =~= nodes@.take(i as int));
            assert(next.last() == nodes@[i as int]);
            lemma_put_all_concat(Pairs::empty(), all_bindings(nodes@.take(i as int)), pairs_view(found@));
        }
        r.insert_all(&found);
        i += 1;
    }
    assert(nodes@.take(nodes.len() as int) =~= nodes@);
    r
}

/// The names of `found` whose flag is set, in the order of `found`.
pub open spec fn kept(found: Seq<(String, bool)>) -> Seq<Seq<char>>
    decreases found.len(),
{
    if found.len() == 0 {
        Seq::empty()
    } else if found.last().1 {
        kept(found.drop_last()).push(found.last().0@)
    } else {
        kept(found.drop_last())
    }
}

/// Of the files that a file includes, each given with whether it exists,
/// those that exist, in the same order. A file that does not exist is left
/// out without complaint.
pub fn existing(found: &Vec<(String, bool)>) -> (r: Vec<String>)
    ensures
        names(r@) == kept(found@),
{
    let mut r: Vec<String> = Vec::new();
    let mut i: usize = 0;
    while i < found.len()
        invariant
            i <= found.len(),
            names(r@) == kept(found@.take(i as int)),
        decreases found.len() - i,
    {
        let ghost before = names(r@);
        proof {
            let next = found@.take(i + 1);
            assert(next.drop_last() =~= found@.take(i as int));
            assert(next.last() == found@[i as int]);
        }
        if found[i].1 {
            r.push(found[i].0.clone());
            assert(names(r@) =~= before.push(found@[i as int].0@));
        }
        i += 1;
    }
    assert(found@.take(found.len() as int) =~= found@);
    r
}

/// `order` followed by the names of `found` that it does not hold yet, each
/// once, in the order of `found`.
pub open spec fn add_new(order: Seq<Seq<char>>, found: Seq<Seq<char>>) -> Seq<Seq<char>>
    decreases found.len(),
{
    if found.len() == 0 {
        order
    } else {
        let base = add_new(order, found.drop_last());
        if base.contains(found.last()) {
            base
        } else {
            base.push(found.last())
        }
    }
}

/// Adding names keeps what was listed where it was, lists no name twice, and
/// lists exactly the names that were listed or are added.
pub proof fn lemma_add_new(order: Seq<Seq<char>>, found: Seq<Seq<char>>)
    requires
        order.no_duplicates(),
    ensures
        add_new(order, found).no_duplicates(),
        order.len() <= add_new(order, found).len(),
        add_new(order, found).take(order.len() as int) == order,
        forall|name: Seq<char>|
            add_new(order, found).contains(name) <==> order.contains(name) || found.contains(name),
    decreases found.len(),
{
    let all = add_new(order, found);
    if found.len() == 0 {
        assert(all.take(order.len() as int) =~= order);
    } else {
        let init = found.drop_last();
        let base = add_new(order, init);
        lemma_add_new(order, init);
        assert(all.take(order.len() as int) =~= base.take(order.len() as int));
        assert forall|name: Seq<char>| all.contains(name) <==> order.contains(name) || found.contains(
            name,
        ) by {
            if found.contains(name) {
                let j = choose|j: int| 0 <= j < found.len() && found[j] == name;
                if j < init.len() {
                    assert(init[j] == name);
                    assert(init.contains(name));
                }
            }
            if init.contains(name) {
                let j = choose|j: int| 0 <= j < init.len() && init[j] == name;
                assert(found[j] == name);
            }
            if base.contains(name) {
                let j = choose|j: int| 0 <= j < base.len() && base[j] == name;
                assert(all[j] == name);
            }
            if all.contains(name) && !base.contains(name) {
                let j = choose|j: int| 0 <= j < all.len() && all[j] == name;
                if j < base.len() {
                    assert(base[j] == name);
                }
                assert(name == found.last());
                assert(found[found.len() - 1] == name);
            }
            if name == found.last() {
                assert(found[found.len() - 1] == name);
                if !base.contains(name) {
                    assert(all[all.len() - 1] == name);
                }
            }
        }
    }
}

/// The breadth-first discovery of the files of a configuration tree.
///
/// A file is known by the name under which it is handed in; a caller that
/// hands in canonical paths has one name for one file. The files discovered
/// so far are listed in the order of their discovery, the root first. Those
/// not scanned yet wait in a queue, in the same order. Scanning a file
/// lists and queues the files that it includes and that are not listed yet,
/// so no file is listed twice and a cycle of includes ends.
#[derive(Debug)]
pub struct Discovery {
    order: Vec<String>,
    queue: VecDeque<String>,
}

/// Whether `queue` is the end of `order`.
pub open spec fn is_tail(order: Seq<String>, queue: Seq<String>) -> bool {
    &&& queue.len() <= order.len()
    &&& forall|j: int| 0 <= j < queue.len() ==> (#[trigger] queue[j])@ == order[order.len() - queue.len() + j]@
}

impl Discovery {
    #[verifier::type_invariant]
    spec fn inv(self) -> bool {
        is_tail(self.order@, self.queue@) && names(self.order@).no_duplicates()
    }

    /// The files discovered so far, in the order of their discovery.
    pub closed spec fn listed(&self) -> Seq<Seq<char>> {
        names(self.order@)
    }

    /// How many of the listed files have been scanned. The others wait in
    /// the queue.
    pub closed spec fn scanned(&self) -> nat {
        (self.order@.len() - self.queue@.len()) as nat
    }

    /// A discovery that starts at the root file.
    pub fn new(root: String) -> (r: Discovery)
        ensures
            r.listed() == seq![root@],
            r.scanned() == 0,
    {
        let mut order: Vec<String> = Vec::new();
        let mut queue: VecDeque<String> = VecDeque::new();
        queue.push_back(root.clone());
        order.push(root);
        assert(names(order@) =~= seq![root@]);
        Discovery { order, queue }
    }

    /// The file to scan next, or `None` when every listed file has been
    /// scanned.
    pub fn pending(&self) -> (r: Option<&String>)
        ensures
            self.scanned() <= self.listed().len(),
            self.listed().no_duplicates(),
            match r {
                Some(name) => self.scanned() < self.listed().len() && name@ == self.listed()[
                    self.scanned() as int
                ],
                None => self.scanned() == self.listed().len(),
            },
    {
        proof {
            use_type_invariant(self);
        }
        if self.queue.len() > 0 {
            let name = &self.queue[0];
            assert(self.queue@[0]@ == self.order@[self.order@.len() - self.queue@.len() + 0]@);
            Some(name)
        } else {
            None
        }
    }

    /// Takes the files that the pending file includes and that exist (see
    /// `existing`), in the order of its directives: those not listed yet are
    /// listed and queued, and the pending file leaves the queue. Without a
    /// pending file nothing changes.
    pub fn advance(&mut self, found: &Vec<String>)
        ensures
            old(self).scanned() < old(self).listed().len() ==> final(self).listed() == add_new(
                old(self).listed(),
                names(found@),
            ) && final(self).scanned() == old(self).scanned() + 1,
            old(self).scanned() >= old(self).listed().len() ==> final(self).listed() == old(self).listed()
                && final(self).scanned() == old(self).scanned(),
    {
        proof {
            use_type_invariant(&*self);
        }
        if self.queue.len() == 0 {
            return ;
        }
        let ghost before = names(self.order@);
        let ghost waiting = self.queue@.len();
        let mut queue: VecDeque<String> = VecDeque::new();
        std::mem::swap(&mut queue, &mut self.queue);
        let mut order: Vec<String> = Vec::new();
        std::mem::swap(&mut order, &mut self.order);
        let _ = queue.pop_front();
        assert(is_tail(order@, queue@)) by {
            assert forall|j: int| 0 <= j < queue@.len() implies (#[trigger] queue@[j])@ == order@[order@.len()
                - queue@.len() + j]@ by {
                assert(queue@[j] == old(self).queue@[j + 1]);
            }
        }
        let mut j: usize = 0;
        while j < found.len()
            invariant
                j <= found.len(),
                before.no_duplicates(),
                names(order@) == add_new(before, names(found@).take(j as int)),
                is_tail(order@, queue@),
                order@.len() - queue@.len() == before.len() - waiting + 1,
            decreases found.len() - j,
        {
            proof {
                let next = names(found@).take(j + 1);
                assert(next.drop_last() =~= names(found@).take(j as int));
                assert(next.last() == found@[j as int]@);
            }
            let ghost base = names(order@);
            let mut known = false;
            let mut k: usize = 0;
            while k < order.len()
                invariant
                    k <= order.len(),
                    j < found.len(),
                    base == names(order@),
                    known <==> exists|m: int| 0 <= m < k && base[m] == found@[j as int]@,
                decreases order.len() - k,
            {
                if order[k] == found[j] {
                    assert(base[k as int] == found@[j as int]@);
                    known = true;
                }
                k += 1;
            }
            if !known {
                let ghost order_before = order@;
                let ghost queue_before = queue@;
                order.push(found[j].clone());
                queue.push_back(found[j].clone());
                assert(names(order@) =~= base.push(found@[j as int]@));
                assert(is_tail(order@, queue@)) by {
                    assert forall|m: int| 0 <= m < queue@.len() implies (#[trigger] queue@[m])@ == order@[
                        order@.len() - queue@.len() + m]@ by {
                        if m < queue_before.len() {
                            assert(queue@[m] == queue_before[m]);
                            assert(order@[order@.len() - queue@.len() + m] == order_before[order_before.len()
                                - queue_before.len() + m]);
                        }
                    }
                }
            }
            j += 1;
        }
        proof {
            assert(names(found@).take(found.len() as int) =~= names(found@));
            lemma_add_new(before, names(found@));
        }
        self.order = order;
        self.queue = queue;
    }

    /// The files discovered, in the order of their discovery.
    pub fn into_order(self) -> (r: Vec<String>)
        ensures
            names(r@) == self.listed(),
    {
        self.order
    }
}

} // verus!
