//! What is known of each device: where it is defined, or that its definitions conflict.

use crate::path::HostPath;
use crate::spec_file::{clone_nodes, CdiDeviceNode};
use vstd::prelude::*;

verus! {

/// The device nodes that a device needs, and the file that says so.
#[derive(Debug)]
pub struct ResolvedCdiDevice {
    pub spec_path: HostPath,
    /// The nodes that every device of the specification needs.
    pub global_device_nodes: Vec<CdiDeviceNode>,
    pub device_nodes: Vec<CdiDeviceNode>,
}

#[verifier::ext_equal]
pub struct ResolvedView {
    pub spec_path: Seq<u8>,
    pub global_device_nodes: Seq<crate::spec_file::NodeView>,
    pub device_nodes: Seq<crate::spec_file::NodeView>,
}

impl DeepView for ResolvedCdiDevice {
    type V = ResolvedView;

    open spec fn deep_view(&self) -> ResolvedView {
        ResolvedView {
            spec_path: self.spec_path@,
            global_device_nodes: self.global_device_nodes.deep_view(),
            device_nodes: self.device_nodes.deep_view(),
        }
    }
}

impl Clone for ResolvedCdiDevice {
    fn clone(&self) -> (r: ResolvedCdiDevice)
        ensures
            r.deep_view() == self.deep_view(),
    {
        ResolvedCdiDevice {
            spec_path: self.spec_path.clone(),
            global_device_nodes: clone_nodes(&self.global_device_nodes),
            device_nodes: clone_nodes(&self.device_nodes),
        }
    }
}

/// What a directory, or several, say of a device.
#[derive(Debug)]
pub enum EffectiveCdiDevice {
    Resolved(ResolvedCdiDevice),
    /// The device is defined more than once.
    InvalidDuplicate { message: String },
}

pub enum EffectiveView {
    Resolved(ResolvedView),
    InvalidDuplicate { message: Seq<char> },
}

impl DeepView for EffectiveCdiDevice {
    type V = EffectiveView;

    open spec fn deep_view(&self) -> EffectiveView {
        match self {
            EffectiveCdiDevice::Resolved(device) => EffectiveView::Resolved(device.deep_view()),
            EffectiveCdiDevice::InvalidDuplicate { message } => EffectiveView::InvalidDuplicate {
                message: message@,
            },
        }
    }
}

/// What is known of each device, by its qualified name.
#[derive(Debug)]
pub struct DeviceTable {
    items: Vec<(String, EffectiveCdiDevice)>,
}

spec fn items_map(items: Seq<(String, EffectiveCdiDevice)>) -> Map<Seq<char>, EffectiveView>
    decreases items.len(),
{
    if items.len() == 0 {
        Map::empty()
    } else {
        items_map(items.drop_last()).insert(items.last().0@, items.last().1.deep_view())
    }
}

spec fn names_are_distinct(items: Seq<(String, EffectiveCdiDevice)>) -> bool {
    forall|i: int, j: int|
        0 <= i < j < items.len() ==> (#[trigger] items[i]).0@ != (#[trigger] items[j]).0@
}

/// The map holds what the items hold.
proof fn lemma_items_map(items: Seq<(String, EffectiveCdiDevice)>, name: Seq<char>)
    requires
        names_are_distinct(items),
    ensures
        items_map(items).contains_key(name) <==> exists|i: int|
            0 <= i < items.len() && (#[trigger] items[i]).0@ == name,
        forall|i: int|
            0 <= i < items.len() && (#[trigger] items[i]).0@ == name ==> items_map(items)[name]
                == items[i].1.deep_view(),
    decreases items.len(),
{
    if items.len() > 0 {
        let init = items.drop_last();
        lemma_items_map(init, name);
        assert forall|i: int| 0 <= i < items.len() && (#[trigger] items[i]).0@ == name implies
            items_map(items)[name] == items[i].1.deep_view() by {
            if i < init.len() {
                assert(init[i] == items[i]);
                assert(items[i].0@ != items[items.len() - 1].0@);
            }
        }
        if items_map(items).contains_key(name) {
            if items.last().0@ == name {
                assert(items[items.len() - 1].0@ == name);
            } else {
                let i = choose|i: int| 0 <= i < init.len() && (#[trigger] init[i]).0@ == name;
                assert(items[i].0@ == name);
            }
        }
        if exists|i: int| 0 <= i < items.len() && (#[trigger] items[i]).0@ == name {
            let i = choose|i: int| 0 <= i < items.len() && (#[trigger] items[i]).0@ == name;
            if i < init.len() {
                assert(init[i].0@ == name);
            }
        }
    }
}

/// Replacing what an item holds replaces what the map holds under its name.
proof fn lemma_items_update(
    items: Seq<(String, EffectiveCdiDevice)>,
    i: int,
    item: (String, EffectiveCdiDevice),
)
    requires
        names_are_distinct(items),
        0 <= i < items.len(),
        items[i].0@ == item.0@,
    ensures
        names_are_distinct(items.update(i, item)),
        items_map(items.update(i, item)) == items_map(items).insert(item.0@, item.1.deep_view()),
    decreases items.len(),
{
    let updated = items.update(i, item);
    let init = items.drop_last();
    assert forall|j: int, k: int| 0 <= j < k < updated.len() implies (#[trigger] updated[j]).0@
        != (#[trigger] updated[k]).0@ by {
        assert(items[j].0@ != items[k].0@);
    }
    if i < init.len() {
        lemma_items_update(init, i, item);
        assert(updated.drop_last() =~= init.update(i, item));
        assert(items[i].0@ != items[items.len() - 1].0@);
        assert(items_map(updated) =~= items_map(items).insert(item.0@, item.1.deep_view()));
    } else {
        assert(updated.drop_last() =~= init);
        assert(items_map(updated) =~= items_map(items).insert(item.0@, item.1.deep_view()));
    }
}

impl View for DeviceTable {
    type V = Map<Seq<char>, EffectiveView>;

    closed spec fn view(&self) -> Map<Seq<char>, EffectiveView> {
        items_map(self.items@)
    }
}

impl DeviceTable {
    /// No device is listed twice.
    pub closed spec fn well_formed(&self) -> bool {
        names_are_distinct(self.items@)
    }

    /// A table that knows no device.
    pub fn new() -> (r: DeviceTable)
        ensures
            r.well_formed(),
            r@ == Map::<Seq<char>, EffectiveView>::empty(),
    {
        DeviceTable { items: Vec::new() }
    }

    fn find(&self, name: &String) -> (r: Option<usize>)
        requires
            self.well_formed(),
        ensures
            match r {
                Some(i) => i < self.items@.len() && self.items@[i as int].0@ == name@,
                None => !self@.contains_key(name@),
            },
    {
        let n: usize = self.items.len();
        let mut i: usize = 0;
        while i < n
            invariant
                i <= n,
                n == self.items@.len(),
                forall|j: int| 0 <= j < i ==> (#[trigger] self.items@[j]).0@ != name@,
            decreases n - i,
        {
            if self.items[i].0 == *name {
                return Some(i);
            }
            i += 1;
        }
        proof {
            lemma_items_map(self.items@, name@);
        }
        None
    }

    /// What is known of the device with this name.
    pub fn get(&self, name: &String) -> (r: Option<&EffectiveCdiDevice>)
        requires
            self.well_formed(),
        ensures
            r.deep_view() == self@.get(name@),
    {
        proof {
            lemma_items_map(self.items@, name@);
        }
        match self.find(name) {
            Some(i) => Some(&self.items[i].1),
            None => None,
        }
    }

    /// Replaces what is known of the device with this name.
    pub fn insert(&mut self, name: String, device: EffectiveCdiDevice)
        requires
            old(self).well_formed(),
        ensures
            final(self).well_formed(),
            final(self)@ == old(self)@.insert(name@, device.deep_view()),
    {
        let ghost before = self.items@;
        match self.find(&name) {
            Some(i) => {
                proof {
                    lemma_items_update(before, i as int, (name, device));
                }
                self.items.set(i, (name, device));
            },
            None => {
                proof {
                    lemma_items_map(before, name@);
                }
                self.items.push((name, device));
                assert(self.items@.drop_last() =~= before);
            },
        }
    }

    /// Replaces what is known of each device that `other` knows by what `other` knows.
    pub fn extend(&mut self, other: DeviceTable)
        requires
            old(self).well_formed(),
            other.well_formed(),
        ensures
            final(self).well_formed(),
            final(self)@ == old(self)@.union_prefer_right(other@),
    {
        let ghost start = self@;
        let ghost all = other.items@;
        assert(all.take(0) =~= Seq::<(String, EffectiveCdiDevice)>::empty());
        assert(start.union_prefer_right(items_map(all.take(0))) =~= start);
        for item in it: other.items.into_iter()
            invariant
                it.seq() == all,
                self.well_formed(),
                self@ == start.union_prefer_right(items_map(all.take(it.index()))),
        {
            proof {
                assert(all.take(it.index() + 1).drop_last() =~= all.take(it.index()));
                assert(start.union_prefer_right(items_map(all.take(it.index() + 1)))
                    =~= start.union_prefer_right(items_map(all.take(it.index()))).insert(
                    item.0@,
                    item.1.deep_view(),
                ));
            }
            self.insert(item.0, item.1);
        }
        assert(all.take(all.len() as int) =~= all);
    }
}

} // verus!
