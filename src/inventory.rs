//! Bags of items carried by entities.
use vstd::prelude::*;

verus! {

#[derive(Debug, Copy, Clone, PartialEq, Eq, Structural)]
pub enum ItemKind {
    Log,
}

impl ItemKind {
    /// Whether items of this kind pile up in one slot; every kind does.
    pub fn stacks(&self) -> (r: bool)
        ensures
            r,
    {
        true
    }
}

#[derive(Debug, Copy, Clone, PartialEq, Eq, Structural)]
pub struct Item {
    pub kind: ItemKind,
}

impl Item {
    /// Whether `it` goes into the same slot as this item.
    pub fn stacks_with(&self, it: &Item) -> (r: bool)
        ensures
            r == (self.kind == it.kind),
    {
        self.kind.stacks() && self.kind == it.kind
    }
}

/// Slots of items with their counts, and the largest total count allowed.
#[derive(Debug, Clone, PartialEq, Eq)]
pub struct Inventory {
    pub items: Vec<(Item, usize)>,
    pub cap: usize,
}

pub struct InventoryView {
    pub items: Seq<(Item, usize)>,
    pub cap: usize,
}

impl View for Inventory {
    type V = InventoryView;

    open spec fn view(&self) -> InventoryView {
        InventoryView { items: self.items@, cap: self.cap }
    }
}

/// The summed count of the slots of `s`.
pub open spec fn sum_counts(s: Seq<(Item, usize)>) -> int
    decreases s.len(),
{
    if s.len() == 0 {
        0
    } else {
        sum_counts(s.drop_last()) + s.last().1
    }
}

/// `i` is the first slot of `s` that holds items of kind `k`.
pub open spec fn is_first_stack(s: Seq<(Item, usize)>, k: ItemKind, i: int) -> bool {
    &&& 0 <= i < s.len()
    &&& s[i].0.kind == k
    &&& forall|j: int| 0 <= j < i ==> s[j].0.kind != k
}

impl InventoryView {
    pub open spec fn count(self) -> int {
        sum_counts(self.items)
    }

    /// Every slot holds at least one item and the total stays within `cap`.
    pub open spec fn wf(self) -> bool {
        &&& forall|i: int| 0 <= i < self.items.len() ==> #[trigger] self.items[i].1 >= 1
        &&& self.count() <= self.cap
    }
}

/// Adding one item: refused when full; else it joins the first slot of its
/// kind, or a new slot at the end.
pub open spec fn spec_insert(a: InventoryView, item: Item) -> (InventoryView, bool) {
    if a.count() >= a.cap {
        (a, false)
    } else if exists|i: int| is_first_stack(a.items, item.kind, i) {
        let i = choose|i: int| is_first_stack(a.items, item.kind, i);
        (
            InventoryView {
                items: a.items.update(i, (a.items[i].0, (a.items[i].1 + 1) as usize)),
                cap: a.cap,
            },
            true,
        )
    } else {
        (InventoryView { items: a.items.push((item, 1usize)), cap: a.cap }, true)
    }
}

/// Nothing more moves from `b` into `a`.
pub open spec fn transfer_stopped(a: InventoryView, b: InventoryView) -> bool {
    b.items.len() == 0 || a.count() >= a.cap
}

/// Moves one item of the last slot of `b` into `a`.
pub open spec fn transfer_one(a: InventoryView, b: InventoryView) -> (InventoryView, InventoryView) {
    let (it, c) = b.items.last();
    let b_items = if c <= 1 {
        b.items.drop_last()
    } else {
        b.items.update(b.items.len() - 1, (it, (c - 1) as usize))
    };
    (spec_insert(a, it).0, InventoryView { items: b_items, cap: b.cap })
}

/// At most `n` single-item moves from the end of `b` into `a`, stopping when
/// `b` is empty or `a` full.
pub open spec fn transfer(a: InventoryView, b: InventoryView, n: nat) -> (InventoryView, InventoryView)
    decreases n,
{
    if n == 0 || transfer_stopped(a, b) {
        (a, b)
    } else {
        let (a2, b2) = transfer_one(a, b);
        transfer(a2, b2, (n - 1) as nat)
    }
}

/// Both bags after moving items of `b` into `a` until `b` is empty or `a` full.
pub open spec fn spec_merge(a: InventoryView, b: InventoryView) -> (InventoryView, InventoryView) {
    transfer(a, b, sum_counts(b.items) as nat)
}

pub proof fn lemma_sum_nonneg(s: Seq<(Item, usize)>)
    ensures
        sum_counts(s) >= 0,
    decreases s.len(),
{
    if s.len() > 0 {
        lemma_sum_nonneg(s.drop_last());
    }
}

proof fn lemma_sum_prefix(s: Seq<(Item, usize)>, i: int)
    requires
        0 <= i <= s.len(),
    ensures
        sum_counts(s.take(i)) <= sum_counts(s),
    decreases s.len(),
{
    if i < s.len() {
        assert(s.take(i) =~= s.drop_last().take(i));
        lemma_sum_prefix(s.drop_last(), i);
    } else {
        assert(s.take(i) =~= s);
    }
}

proof fn lemma_sum_update(s: Seq<(Item, usize)>, i: int, v: (Item, usize))
    requires
        0 <= i < s.len(),
    ensures
        sum_counts(s.update(i, v)) == sum_counts(s) - s[i].1 + v.1,
    decreases s.len(),
{
    if i == s.len() - 1 {
        assert(s.update(i, v).drop_last() =~= s.drop_last());
    } else {
        assert(s.update(i, v).drop_last() =~= s.drop_last().update(i, v));
        lemma_sum_update(s.drop_last(), i, v);
    }
}

proof fn lemma_slot_le_sum(s: Seq<(Item, usize)>, i: int)
    requires
        0 <= i < s.len(),
    ensures
        s[i].1 <= sum_counts(s),
{
    lemma_sum_update(s, i, (s[i].0, 0usize));
    lemma_sum_nonneg(s.update(i, (s[i].0, 0usize)));
}

proof fn lemma_sum_push(s: Seq<(Item, usize)>, v: (Item, usize))
    ensures
        sum_counts(s.push(v)) == sum_counts(s) + v.1,
{
    assert(s.push(v).drop_last() =~= s);
}

/// A well-formed bag stays well formed after `spec_insert`, and gains one
/// item exactly when the insert is accepted.
pub proof fn lemma_insert_wf(a: InventoryView, item: Item)
    requires
        a.wf(),
    ensures
        spec_insert(a, item).0.wf(),
        spec_insert(a, item).0.cap == a.cap,
        spec_insert(a, item).0.count() == a.count() + (if spec_insert(a, item).1 { 1int } else { 0 }),
{
    if a.count() >= a.cap {
    } else if exists|i: int| is_first_stack(a.items, item.kind, i) {
        let i = choose|i: int| is_first_stack(a.items, item.kind, i);
        lemma_slot_le_sum(a.items, i);
        lemma_sum_update(a.items, i, (a.items[i].0, (a.items[i].1 + 1) as usize));
        let r = spec_insert(a, item).0;
        assert forall|j: int| 0 <= j < r.items.len() implies #[trigger] r.items[j].1 >= 1 by {
            if j != i {
                assert(r.items[j] == a.items[j]);
            }
        }
    } else {
        lemma_sum_push(a.items, (item, 1usize));
        let r = spec_insert(a, item).0;
        assert forall|j: int| 0 <= j < r.items.len() implies #[trigger] r.items[j].1 >= 1 by {
            if j < a.items.len() {
                assert(r.items[j] == a.items[j]);
            }
        }
    }
}

/// Moving one item keeps both bags well formed and moves exactly one item.
pub proof fn lemma_transfer_one(a: InventoryView, b: InventoryView)
    requires
        a.wf(),
        b.wf(),
        !transfer_stopped(a, b),
    ensures
        transfer_one(a, b).0.wf(),
        transfer_one(a, b).1.wf(),
        transfer_one(a, b).0.cap == a.cap,
        transfer_one(a, b).1.cap == b.cap,
        transfer_one(a, b).0.count() == a.count() + 1,
        transfer_one(a, b).1.count() == b.count() - 1,
{
    let (it, c) = b.items.last();
    lemma_insert_wf(a, it);
    let last = b.items.len() - 1;
    assert(b.items[last].1 >= 1);
    if c <= 1 {
        assert(sum_counts(b.items) == sum_counts(b.items.drop_last()) + c);
    } else {
        lemma_sum_update(b.items, last, (it, (c - 1) as usize));
        let r = transfer_one(a, b).1;
        assert forall|j: int| 0 <= j < r.items.len() implies #[trigger] r.items[j].1 >= 1 by {
            if j != last {
                assert(r.items[j] == b.items[j]);
            }
        }
    }
}

impl Inventory {
    /// An empty bag holding at most `cap` items.
    pub fn new(cap: usize) -> (r: Inventory)
        ensures
            r@.items.len() == 0,
            r@.cap == cap,
            r@.wf(),
    {
        Inventory { items: Vec::new(), cap }
    }

    /// A bag holding exactly `item`, with room for nothing more.
    pub fn of_item(item: Item) -> (r: Inventory)
        ensures
            r@.items == seq![(item, 1usize)],
            r@.cap == 1,
            r@.wf(),
    {
        let mut items: Vec<(Item, usize)> = Vec::new();
        items.push((item, 1));
        proof {
            assert(items@.drop_last() =~= Seq::<(Item, usize)>::empty());
            assert(sum_counts(items@.drop_last()) == 0);
            assert(sum_counts(items@) == 1);
        }
        Inventory { items, cap: 1 }
    }

    /// A copy of this bag.
    pub fn copy(&self) -> (r: Inventory)
        ensures
            r@ == self@,
    {
        let mut items: Vec<(Item, usize)> = Vec::new();
        let mut i: usize = 0;
        while i < self.items.len()
            invariant
                i <= self.items@.len(),
                items@ == self.items@.take(i as int),
            decreases self.items@.len() - i,
        {
            let (it, c) = self.items[i];
            items.push((it, c));
            i = i + 1;
            assert(items@ =~= self.items@.take(i as int));
        }
        assert(items@ =~= self.items@);
        Inventory { items, cap: self.cap }
    }

    /// The summed count of all slots.
    pub fn count(&self) -> (r: usize)
        requires
            self@.wf(),
        ensures
            r == self@.count(),
    {
        let mut total: usize = 0;
        let mut i: usize = 0;
        while i < self.items.len()
            invariant
                i <= self.items@.len(),
                total == sum_counts(self.items@.take(i as int)),
                self@.wf(),
            decreases self.items@.len() - i,
        {
            proof {
                assert(self.items@.take(i + 1).drop_last() =~= self.items@.take(i as int));
                lemma_sum_prefix(self.items@, i + 1);
            }
            total = total + self.items[i].1;
            i = i + 1;
        }
        assert(self.items@.take(i as int) =~= self.items@);
        total
    }

    pub fn is_empty(&self) -> (r: bool)
        ensures
            r == (self@.items.len() == 0),
    {
        self.items.len() == 0
    }

    /// Adds one item; refused, with the bag unchanged, when it is full.
    pub fn insert(&mut self, item: Item) -> (r: bool)
        requires
            old(self)@.wf(),
        ensures
            (final(self)@, r) == spec_insert(old(self)@, item),
            final(self)@.wf(),
    {
        proof {
            lemma_insert_wf(self@, item);
        }
        if self.count() >= self.cap {
            return false;
        }
        let mut i: usize = 0;
        while i < self.items.len()
            invariant
                i <= self.items@.len(),
                self@ == old(self)@,
                old(self)@.wf(),
                old(self)@.count() < old(self)@.cap,
                forall|j: int| 0 <= j < i ==> self.items@[j].0.kind != item.kind,
            decreases self.items@.len() - i,
        {
            let (it, size) = self.items[i];
            if it.stacks_with(&item) {
                proof {
                    assert(is_first_stack(self.items@, item.kind, i as int));
                    let k = choose|k: int| is_first_stack(self.items@, item.kind, k);
                    assert(k == i);
                    lemma_slot_le_sum(self.items@, i as int);
                }
                self.items.set(i, (it, size + 1));
                proof {
                    assert(self@.items =~= spec_insert(old(self)@, item).0.items);
                    lemma_insert_wf(old(self)@, item);
                    assert(self@ == spec_insert(old(self)@, item).0);
                }
                return true;
            }
            i = i + 1;
        }
        proof {
            assert(!exists|k: int| is_first_stack(self.items@, item.kind, k));
        }
        self.items.push((item, 1));
        true
    }

    /// Moves items from the end of `other` into this bag until `other` is
    /// empty or this bag is full.
    pub fn insert_inventory(&mut self, other: &mut Inventory)
        requires
            old(self)@.wf(),
            old(other)@.wf(),
        ensures
            (final(self)@, final(other)@) == spec_merge(old(self)@, old(other)@),
            final(self)@.wf(),
            final(other)@.wf(),
    {
        loop
            invariant
                self@.wf(),
                other@.wf(),
                transfer(self@, other@, sum_counts(other@.items) as nat) == spec_merge(
                    old(self)@,
                    old(other)@,
                ),
            decreases sum_counts(other@.items),
        {
            let n = other.items.len();
            if n == 0 {
                return;
            }
            let (item, count) = other.items[n - 1];
            proof {
                lemma_sum_nonneg(other@.items.drop_last());
                assert(other@.items[n - 1].1 >= 1);
            }
            let ghost a0 = self@;
            let ghost b0 = other@;
            if self.insert(item) {
                proof {
                    lemma_transfer_one(a0, b0);
                }
                if count <= 1 {
                    other.items.pop();
                } else {
                    other.items.set(n - 1, (item, count - 1));
                }
                proof {
                    assert(other@.items =~= transfer_one(a0, b0).1.items);
                }
            } else {
                return;
            }
        }
    }

    /// The event that leaves this bag on the ground at `pos`.
    pub fn drop(self, pos: crate::geom::Vec) -> (r: crate::world::WorldEvent)
        ensures
            r@ == crate::world::WorldEventView::CreateEntity(crate::world::treasure_view(pos, self@)),
    {
        crate::world::WorldEvent::CreateEntity(crate::world::Entity {
            pos: pos,
            kind: crate::world::EntityKind::Treasure,
            hp: None,
            inventory: Some(self),
        })
    }
}

} // verus!
