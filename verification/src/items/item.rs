//! Item names as typed handles, and the reduced mapping from item to
//! quantity.
use vstd::prelude::*;
use vstd::string::StringExecFns;

use crate::atom::{Atom, Registry};
use crate::items::amount::Amount;

verus! {

/// Domain marker tagging atoms and the registry of the item vocabulary.
#[derive(Debug, Clone, Copy, PartialEq, Eq, Hash)]
pub struct ItemDomain;

/// Error: a key was never registered as an item name; carries the rejected
/// input so the caller can report exactly what was given.
#[derive(Debug, Clone, PartialEq, Eq)]
pub struct InvalidItem(pub String);

impl InvalidItem {
    /// The error rendered for people.
    pub fn message(&self) -> (r: String)
        ensures
            r@ == "Unrecognized item name "@ + self.0@,
    {
        let mut s: String = <String as StringExecFns>::from_str("Unrecognized item name ");
        s.append(self.0.as_str());
        s
    }
}

/// A typed handle standing in for a registered item name.  It behaves like
/// a small value: copyable, hashable, and comparable solely by its
/// identifier.
#[derive(Debug, Clone, Copy, PartialEq, Eq, Hash)]
pub struct Item(Atom<ItemDomain>);

impl View for Item {
    type V = u64;

    closed spec fn view(&self) -> u64 {
        self.0@
    }
}

impl Item {
    /// Constructs a handle by looking the key up in the item registry; an
    /// unregistered key is rejected with an `InvalidItem` carrying it, never
    /// with an unrecoverable fault.
    pub fn new(reg: &Registry<ItemDomain>, val: &str) -> (r: Result<Item, InvalidItem>)
        requires
            reg.wf(),
        ensures
            r is Ok <==> reg@.contains_key(val@),
            r matches Ok(it) ==> it@ == reg@[val@],
            r matches Err(e) ==> e.0@ == val@,
    {
        match reg.lookup(val) {
            Some(a) => Ok(Item(a)),
            None => Err(InvalidItem(val.to_owned())),
        }
    }

    /// Recovers a copy of the item name behind this handle; total for every
    /// handle issued by the given registry, since every issued identifier
    /// has a reverse-mapping entry.
    pub fn cloned(&self, reg: &Registry<ItemDomain>) -> (r: String)
        requires
            reg.wf(),
            reg.rev().contains_key(self@),
        ensures
            r@ == reg.rev()[self@],
    {
        match reg.peek_value(self.0) {
            Some(s) => s.clone(),
            None => vstd::pervasive::unreached(),
        }
    }

    /// The numeric identifier behind this handle; equality of handles is
    /// equality of identifiers.
    pub fn id(&self) -> (r: u64)
        ensures
            r == self@,
    {
        self.0.id()
    }
}

/// One item handle paired with one quantity.
#[derive(Debug, Clone, Copy, PartialEq, Eq, Hash)]
pub struct ItemStack(pub Item, pub Amount);

/// Error: a provided stack was too large to remove; the set it was to be
/// removed from is guaranteed unchanged.
#[derive(Debug, Clone, Copy, PartialEq, Eq)]
pub struct StackTooLarge;

/// The quantity a reduced mapping holds for a key: zero when the key is
/// absent, since the reduced form stores no zero entries.
pub open spec fn amt_of(m: Map<u64, nat>, k: u64) -> nat {
    if m.contains_key(k) {
        m[k]
    } else {
        0
    }
}

/// The mapping described by a sequence of stacks; a well-formed set never
/// repeats a key, so no entry shadows another.
spec fn stacks_map(s: Seq<ItemStack>) -> Map<u64, nat>
    decreases s.len(),
{
    if s.len() == 0 {
        Map::empty()
    } else {
        stacks_map(s.drop_last()).insert(s.last().0@, s.last().1@)
    }
}

/// The total quantity a sequence of stacks carries for one key.
pub open spec fn batch_amt(s: Seq<ItemStack>, k: u64) -> nat
    decreases s.len(),
{
    if s.len() == 0 {
        0
    } else {
        batch_amt(s.drop_last(), k) + (if s.last().0@ == k {
            s.last().1@
        } else {
            0
        })
    }
}

/// No two stacks carry the same key.
spec fn keys_ok(s: Seq<ItemStack>) -> bool {
    forall|i: int, j: int| 0 <= i < j < s.len() ==> s[i].0@ != s[j].0@
}

/// No stack carries a zero quantity.
spec fn no_zeros(s: Seq<ItemStack>) -> bool {
    forall|i: int| 0 <= i < s.len() ==> s[i].1@ != 0
}

proof fn lemma_smem(s: Seq<ItemStack>, k: u64)
    ensures
        stacks_map(s).contains_key(k) <==> exists|i: int| 0 <= i < s.len() && s[i].0@ == k,
    decreases s.len(),
{
    if s.len() > 0 {
        lemma_smem(s.drop_last(), k);
        assert(forall|i: int| 0 <= i < s.len() - 1 ==> s.drop_last()[i] == s[i]);
        if stacks_map(s).contains_key(k) {
            if s.last().0@ == k {
                assert(s[s.len() - 1].0@ == k);
            }
        }
        if exists|i: int| 0 <= i < s.len() && s[i].0@ == k {
            let i = choose|i: int| 0 <= i < s.len() && s[i].0@ == k;
            if i < s.len() - 1 {
                assert(s.drop_last()[i].0@ == k);
            }
        }
    }
}

proof fn lemma_sval(s: Seq<ItemStack>, i: int)
    requires
        keys_ok(s),
        0 <= i < s.len(),
    ensures
        stacks_map(s).contains_key(s[i].0@),
        stacks_map(s)[s[i].0@] == s[i].1@,
    decreases s.len(),
{
    assert(forall|k: int| 0 <= k < s.len() - 1 ==> s.drop_last()[k] == s[k]);
    if i < s.len() - 1 {
        lemma_sval(s.drop_last(), i);
        assert(s.last().0@ != s[i].0@);
    }
}

proof fn lemma_scard(s: Seq<ItemStack>)
    requires
        keys_ok(s),
    ensures
        stacks_map(s).dom().finite(),
        stacks_map(s).dom().len() == s.len(),
    decreases s.len(),
{
    if s.len() == 0 {
        assert(stacks_map(s).dom() =~= Set::empty());
    } else {
        assert(forall|k: int| 0 <= k < s.len() - 1 ==> s.drop_last()[k] == s[k]);
        lemma_scard(s.drop_last());
        lemma_smem(s.drop_last(), s.last().0@);
        assert(!stacks_map(s.drop_last()).contains_key(s.last().0@));
        assert(stacks_map(s).dom() =~= stacks_map(s.drop_last()).dom().insert(s.last().0@));
    }
}

proof fn lemma_spush(s: Seq<ItemStack>, p: ItemStack)
    ensures
        stacks_map(s.push(p)) == stacks_map(s).insert(p.0@, p.1@),
{
    assert(s.push(p).drop_last() =~= s);
}

proof fn lemma_sremove(s: Seq<ItemStack>, i: int)
    requires
        keys_ok(s),
        0 <= i < s.len(),
    ensures
        stacks_map(s.remove(i)) == stacks_map(s).remove(s[i].0@),
        keys_ok(s.remove(i)),
    decreases s.len(),
{
    let k = s[i].0@;
    assert(forall|m: int| 0 <= m < s.len() - 1 ==> s.drop_last()[m] == s[m]);
    assert(forall|m: int| 0 <= m < i ==> s.remove(i)[m] == s[m]);
    assert(forall|m: int| i <= m < s.len() - 1 ==> s.remove(i)[m] == s[m + 1]);
    if i == s.len() - 1 {
        assert(s.remove(i) =~= s.drop_last());
        lemma_smem(s.drop_last(), k);
        assert(!stacks_map(s.drop_last()).contains_key(k));
        assert(stacks_map(s).remove(k) =~= stacks_map(s.drop_last()));
    } else {
        lemma_sremove(s.drop_last(), i);
        assert(s.remove(i).drop_last() =~= s.drop_last().remove(i));
        assert(s.remove(i).last() == s.last());
        assert(s.drop_last()[i] == s[i]);
        assert(s.last().0@ != k);
        assert(stacks_map(s.remove(i)) == stacks_map(s.drop_last()).remove(k).insert(
            s.last().0@,
            s.last().1@,
        ));
        assert(stacks_map(s.drop_last()).remove(k).insert(s.last().0@, s.last().1@)
            =~= stacks_map(s.drop_last()).insert(s.last().0@, s.last().1@).remove(k));
    }
}

proof fn lemma_batch_absent(s: Seq<ItemStack>, k: u64)
    requires
        forall|i: int| 0 <= i < s.len() ==> s[i].0@ != k,
    ensures
        batch_amt(s, k) == 0,
    decreases s.len(),
{
    if s.len() > 0 {
        assert(forall|m: int| 0 <= m < s.len() - 1 ==> s.drop_last()[m] == s[m]);
        lemma_batch_absent(s.drop_last(), k);
        assert(s[s.len() - 1].0@ != k);
    }
}

proof fn lemma_batch_take_step(s: Seq<ItemStack>, i: int, k: u64)
    requires
        0 <= i < s.len(),
    ensures
        batch_amt(s.take(i + 1), k) == batch_amt(s.take(i), k) + (if s[i].0@ == k {
            s[i].1@
        } else {
            0nat
        }),
{
    assert(s.take(i + 1).drop_last() =~= s.take(i));
    assert(s.take(i + 1).last() == s[i]);
}

proof fn lemma_batch_eq_amt(s: Seq<ItemStack>, k: u64)
    requires
        keys_ok(s),
    ensures
        batch_amt(s, k) == amt_of(stacks_map(s), k),
    decreases s.len(),
{
    if s.len() > 0 {
        assert(forall|m: int| 0 <= m < s.len() - 1 ==> s.drop_last()[m] == s[m]);
        lemma_batch_eq_amt(s.drop_last(), k);
        if s.last().0@ == k {
            lemma_smem(s.drop_last(), k);
            assert(!stacks_map(s.drop_last()).contains_key(k));
        }
    }
}

/// A reduced mapping from item handle to quantity, always in canonical
/// form: no entry is ever present with a quantity of exactly zero.
#[derive(Debug, Clone, PartialEq, Eq)]
pub struct ItemStacks(Vec<ItemStack>);

impl View for ItemStacks {
    type V = Map<u64, nat>;

    closed spec fn view(&self) -> Map<u64, nat> {
        stacks_map(self.0@)
    }
}

impl ItemStacks {
    /// Well-formedness: each key at most once, and never with quantity
    /// zero.
    pub closed spec fn wf(&self) -> bool {
        keys_ok(self.0@) && no_zeros(self.0@)
    }

    /// Reduced-form law: a well-formed set stores no zero quantity, so a
    /// key is present exactly when its quantity is positive.
    pub proof fn lemma_reduced(&self)
        requires
            self.wf(),
        ensures
            forall|k: u64| #[trigger] self@.contains_key(k) ==> self@[k] != 0,
            forall|k: u64| self@.contains_key(k) <==> amt_of(self@, k) > 0,
    {
        assert forall|k: u64| #[trigger] self@.contains_key(k) implies self@[k] != 0 by {
            lemma_smem(self.0@, k);
            let i = choose|i: int| 0 <= i < self.0@.len() && self.0@[i].0@ == k;
            lemma_sval(self.0@, i);
        }
    }

    /// The empty aggregate.
    pub fn empty() -> (r: ItemStacks)
        ensures
            r.wf(),
            r@ == Map::<u64, nat>::empty(),
    {
        ItemStacks(Vec::new())
    }

    /// The index holding the given item, if any.
    fn find(&self, item: Item) -> (r: Option<usize>)
        ensures
            match r {
                Some(i) => i < self.0@.len() && self.0@[i as int].0@ == item@,
                None => forall|i: int| 0 <= i < self.0@.len() ==> self.0@[i].0@ != item@,
            },
    {
        let n = self.0.len();
        let mut i: usize = 0;
        while i < n
            invariant
                n == self.0@.len(),
                i <= n,
                forall|j: int| 0 <= j < i ==> self.0@[j].0@ != item@,
            decreases n - i,
        {
            if self.0[i].0.id() == item.id() {
                return Some(i);
            }
            i += 1;
        }
        None
    }

    /// The quantity stored for an item, absent when the item is not in the
    /// set.
    pub fn get(&self, item: Item) -> (r: Option<Amount>)
        requires
            self.wf(),
        ensures
            match r {
                Some(a) => self@.contains_key(item@) && a@ == self@[item@],
                None => !self@.contains_key(item@),
            },
    {
        match self.find(item) {
            Some(i) => {
                proof {
                    lemma_sval(self.0@, i as int);
                }
                Some(self.0[i].1)
            },
            None => {
                proof {
                    lemma_smem(self.0@, item@);
                }
                None
            },
        }
    }

    /// How many items the set holds an entry for.
    pub fn len(&self) -> (r: usize)
        requires
            self.wf(),
        ensures
            r == self@.dom().len(),
    {
        proof {
            lemma_scard(self.0@);
        }
        self.0.len()
    }

    /// Merges one stack into the set: quantities of an already-present item
    /// add up, a new item gets an entry, and a zero entry is never left
    /// behind.
    pub fn insert_one(&mut self, stack: ItemStack)
        requires
            old(self).wf(),
            amt_of(old(self)@, stack.0@) + stack.1@ <= u64::MAX,
        ensures
            final(self).wf(),
            amt_of(final(self)@, stack.0@) == amt_of(old(self)@, stack.0@) + stack.1@,
            forall|k: u64|
                k != stack.0@ ==> amt_of(final(self)@, k) == amt_of(old(self)@, k),
    {
        match self.find(stack.0) {
            Some(i) => {
                proof {
                    lemma_sval(self.0@, i as int);
                }
                let cur: Amount = self.0[i].1;
                let merged: Amount = cur.add(stack.1);
                let item: Item = self.0[i].0;
                let ghost pre = self.0@;
                self.0.remove(i);
                proof {
                    lemma_sremove(pre, i as int);
                    assert(forall|m: int| 0 <= m < i ==> self.0@[m] == pre[m]);
                    assert(forall|m: int|
                        i <= m < pre.len() - 1 ==> self.0@[m] == pre[m + 1]);
                }
                let ghost mid = self.0@;
                self.0.push(ItemStack(item, merged));
                proof {
                    lemma_spush(mid, ItemStack(item, merged));
                    lemma_smem(mid, stack.0@);
                }
            },
            None => {
                proof {
                    lemma_smem(self.0@, stack.0@);
                }
                if !stack.1.is_zero() {
                    let ghost pre = self.0@;
                    self.0.push(stack);
                    proof {
                        lemma_spush(pre, stack);
                    }
                }
            },
        }
    }

    /// Removes exactly the given quantity, pruning the entry if it reaches
    /// zero.
    fn remove_exact(&mut self, stack: ItemStack)
        requires
            old(self).wf(),
            stack.1@ <= amt_of(old(self)@, stack.0@),
        ensures
            final(self).wf(),
            amt_of(final(self)@, stack.0@) + stack.1@ == amt_of(old(self)@, stack.0@),
            forall|k: u64| k != stack.0@ ==> amt_of(final(self)@, k) == amt_of(old(self)@, k),
    {
        if stack.1.is_zero() {
            return ;
        }
        let i = match self.find(stack.0) {
            Some(i) => i,
            None => {
                proof {
                    lemma_smem(self.0@, stack.0@);
                }
                vstd::pervasive::unreached()
            },
        };
        proof {
            lemma_sval(self.0@, i as int);
        }
        let cur: Amount = self.0[i].1;
        let rem: Amount = match cur.checked_sub(stack.1) {
            Some(r) => r,
            None => vstd::pervasive::unreached(),
        };
        let item: Item = self.0[i].0;
        let ghost pre = self.0@;
        self.0.remove(i);
        proof {
            lemma_sremove(pre, i as int);
            assert(forall|m: int| 0 <= m < i ==> self.0@[m] == pre[m]);
            assert(forall|m: int| i <= m < pre.len() - 1 ==> self.0@[m] == pre[m + 1]);
        }
        if !rem.is_zero() {
            let ghost mid = self.0@;
            self.0.push(ItemStack(item, rem));
            proof {
                lemma_spush(mid, ItemStack(item, rem));
                lemma_smem(mid, stack.0@);
            }
        }
    }

    /// Guarded removal of one stack: fails with `StackTooLarge` and leaves
    /// the set entirely untouched when the item is not present with at
    /// least the requested quantity; otherwise subtracts and prunes the
    /// entry if the difference is exactly zero.
    pub fn try_remove_one(&mut self, stack: ItemStack) -> (r: Result<(), StackTooLarge>)
        requires
            old(self).wf(),
        ensures
            final(self).wf(),
            r is Ok <==> stack.1@ <= amt_of(old(self)@, stack.0@),
            r matches Ok(_) ==> amt_of(final(self)@, stack.0@) + stack.1@ == amt_of(
                old(self)@,
                stack.0@,
            ) && forall|k: u64|
                k != stack.0@ ==> amt_of(final(self)@, k) == amt_of(old(self)@, k),
            r is Err ==> final(self)@ == old(self)@,
    {
        let have: Amount = match self.get(stack.0) {
            Some(a) => a,
            None => Amount::zero(),
        };
        if have.raw() < stack.1.raw() {
            return Err(StackTooLarge);
        }
        self.remove_exact(stack);
        Ok(())
    }

    /// Merges a whole reduced set into this one, item by item; equivalent
    /// to inserting each of the other set's stacks in turn.
    pub fn insert(&mut self, stacks: &ItemStacks)
        requires
            old(self).wf(),
            stacks.wf(),
            forall|k: u64| amt_of(old(self)@, k) + amt_of(stacks@, k) <= u64::MAX,
        ensures
            final(self).wf(),
            forall|k: u64|
                amt_of(final(self)@, k) == amt_of(old(self)@, k) + amt_of(stacks@, k),
    {
        let n = stacks.0.len();
        let mut vi: usize = 0;
        while vi < n
            invariant
                n == stacks.0@.len(),
                vi <= n,
                self.wf(),
                stacks.wf(),
                forall|k: u64| amt_of(old(self)@, k) + amt_of(stacks@, k) <= u64::MAX,
                forall|k: u64|
                    amt_of(self@, k) == amt_of(old(self)@, k) + batch_amt(
                        stacks.0@.take(vi as int),
                        k,
                    ),
            decreases n - vi,
        {
            let st = stacks.0[vi];
            proof {
                assert(forall|j: int|
                    0 <= j < vi ==> stacks.0@.take(vi as int)[j] == stacks.0@[j]);
                assert(forall|j: int|
                    0 <= j < vi ==> stacks.0@[j].0@ != stacks.0@[vi as int].0@);
                lemma_batch_absent(stacks.0@.take(vi as int), st.0@);
                lemma_sval(stacks.0@, vi as int);
                assert(amt_of(self@, st.0@) == amt_of(old(self)@, st.0@));
                assert(amt_of(stacks@, st.0@) == st.1@);
            }
            self.insert_one(st);
            proof {
                assert forall|k: u64|
                    amt_of(self@, k) == amt_of(old(self)@, k) + batch_amt(
                        stacks.0@.take(vi + 1 as int),
                        k,
                    ) by {
                    lemma_batch_take_step(stacks.0@, vi as int, k);
                }
            }
            vi += 1;
        }
        proof {
            assert(stacks.0@.take(n as int) =~= stacks.0@);
            assert forall|k: u64|
                amt_of(self@, k) == amt_of(old(self)@, k) + amt_of(stacks@, k) by {
                lemma_batch_eq_amt(stacks.0@, k);
            }
        }
    }

    /// Guarded removal of a whole reduced set, all or nothing: every
    /// individual subtraction is verified first, and only if all of them
    /// would succeed are any committed; one failure leaves this set
    /// entirely unchanged.
    pub fn try_remove(&mut self, stacks: &ItemStacks) -> (r: Result<(), StackTooLarge>)
        requires
            old(self).wf(),
            stacks.wf(),
        ensures
            final(self).wf(),
            r is Ok <==> (forall|k: u64| amt_of(stacks@, k) <= amt_of(old(self)@, k)),
            r matches Ok(_) ==> forall|k: u64|
                amt_of(final(self)@, k) + amt_of(stacks@, k) == amt_of(old(self)@, k),
            r is Err ==> final(self)@ == old(self)@,
    {
        let n = stacks.0.len();
        let mut vi: usize = 0;
        while vi < n
            invariant
                n == stacks.0@.len(),
                vi <= n,
                self.wf(),
                stacks.wf(),
                *self == *old(self),
                forall|j: int|
                    0 <= j < vi ==> stacks.0@[j].1@ <= amt_of(self@, stacks.0@[j].0@),
            decreases n - vi,
        {
            let st = stacks.0[vi];
            let have: Amount = match self.get(st.0) {
                Some(a) => a,
                None => Amount::zero(),
            };
            if have.raw() < st.1.raw() {
                proof {
                    lemma_sval(stacks.0@, vi as int);
                    assert(self@ == old(self)@);
                    assert(amt_of(stacks@, st.0@) > amt_of(old(self)@, st.0@));
                }
                return Err(StackTooLarge);
            }
            vi += 1;
        }
        proof {
            assert forall|k: u64| amt_of(stacks@, k) <= amt_of(self@, k) by {
                if stacks@.contains_key(k) {
                    lemma_smem(stacks.0@, k);
                    let j = choose|j: int| 0 <= j < stacks.0@.len() && stacks.0@[j].0@ == k;
                    lemma_sval(stacks.0@, j);
                }
            }
        }
        let mut vi: usize = 0;
        while vi < n
            invariant
                n == stacks.0@.len(),
                vi <= n,
                self.wf(),
                stacks.wf(),
                forall|k: u64| amt_of(stacks@, k) <= amt_of(old(self)@, k),
                forall|k: u64|
                    amt_of(self@, k) + batch_amt(stacks.0@.take(vi as int), k) == amt_of(
                        old(self)@,
                        k,
                    ),
            decreases n - vi,
        {
            let st = stacks.0[vi];
            proof {
                assert(forall|j: int|
                    0 <= j < vi ==> stacks.0@.take(vi as int)[j] == stacks.0@[j]);
                assert(forall|j: int|
                    0 <= j < vi ==> stacks.0@[j].0@ != stacks.0@[vi as int].0@);
                lemma_batch_absent(stacks.0@.take(vi as int), st.0@);
                lemma_sval(stacks.0@, vi as int);
                assert(amt_of(self@, st.0@) == amt_of(old(self)@, st.0@));
                assert(amt_of(stacks@, st.0@) == st.1@);
                assert(st.1@ <= amt_of(self@, st.0@));
            }
            self.remove_exact(st);
            proof {
                assert forall|k: u64|
                    amt_of(self@, k) + batch_amt(stacks.0@.take(vi + 1 as int), k) == amt_of(
                        old(self)@,
                        k,
                    ) by {
                    lemma_batch_take_step(stacks.0@, vi as int, k);
                }
            }
            vi += 1;
        }
        proof {
            assert(stacks.0@.take(n as int) =~= stacks.0@);
            assert forall|k: u64|
                amt_of(self@, k) + amt_of(stacks@, k) == amt_of(old(self)@, k) by {
                lemma_batch_eq_amt(stacks.0@, k);
            }
        }
        Ok(())
    }

    /// Builds a reduced set from a sequence of stacks by merging them in
    /// turn, so duplicate items add up and zero quantities are pruned.
    pub fn new(stacks: Vec<ItemStack>) -> (r: ItemStacks)
        requires
            forall|k: u64| batch_amt(stacks@, k) <= u64::MAX,
        ensures
            r.wf(),
            forall|k: u64| amt_of(r@, k) == batch_amt(stacks@, k),
    {
        let mut r = ItemStacks::empty();
        let n = stacks.len();
        let mut vi: usize = 0;
        while vi < n
            invariant
                n == stacks@.len(),
                vi <= n,
                r.wf(),
                forall|k: u64| batch_amt(stacks@, k) <= u64::MAX,
                forall|k: u64| amt_of(r@, k) == batch_amt(stacks@.take(vi as int), k),
            decreases n - vi,
        {
            let st = stacks[vi];
            proof {
                lemma_batch_take_step(stacks@, vi as int, st.0@);
                lemma_batch_take_le(stacks@, vi + 1, st.0@);
            }
            r.insert_one(st);
            proof {
                assert forall|k: u64|
                    amt_of(r@, k) == batch_amt(stacks@.take(vi + 1 as int), k) by {
                    lemma_batch_take_step(stacks@, vi as int, k);
                }
            }
            vi += 1;
        }
        proof {
            assert(stacks@.take(n as int) =~= stacks@);
        }
        r
    }

    /// The stacks the set holds, one per item; the order carries no
    /// meaning.
    pub fn stacks_iter(&self) -> (r: Vec<ItemStack>)
        requires
            self.wf(),
        ensures
            r@.len() == self@.dom().len(),
            forall|i: int|
                0 <= i < r@.len() ==> #[trigger] self@.contains_key(r@[i].0@) && self@[r@[i].0@]
                    == r@[i].1@,
            forall|i: int, j: int| 0 <= i < j < r@.len() ==> r@[i].0@ != r@[j].0@,
            forall|k: u64|
                #[trigger] self@.contains_key(k) ==> exists|i: int|
                    0 <= i < r@.len() && r@[i].0@ == k,
    {
        let n = self.0.len();
        let mut r: Vec<ItemStack> = Vec::new();
        let mut i: usize = 0;
        while i < n
            invariant
                n == self.0@.len(),
                i <= n,
                r@ == self.0@.take(i as int),
            decreases n - i,
        {
            r.push(self.0[i]);
            proof {
                assert(r@ =~= self.0@.take(i + 1 as int));
            }
            i += 1;
        }
        proof {
            assert(r@ =~= self.0@);
            lemma_scard(self.0@);
            assert forall|i: int|
                0 <= i < r@.len() implies #[trigger] self@.contains_key(r@[i].0@) && self@[r@[
                i].0@] == r@[i].1@ by {
                lemma_sval(self.0@, i);
            }
            assert forall|k: u64| #[trigger] self@.contains_key(k) implies exists|i: int|
                0 <= i < r@.len() && r@[i].0@ == k by {
                lemma_smem(self.0@, k);
            }
        }
        r
    }
}

proof fn lemma_batch_take_le(s: Seq<ItemStack>, m: int, k: u64)
    requires
        0 <= m <= s.len(),
    ensures
        batch_amt(s.take(m), k) <= batch_amt(s, k),
    decreases s.len() - m,
{
    if m == s.len() {
        assert(s.take(m) =~= s);
    } else {
        lemma_batch_take_step(s, m, k);
        lemma_batch_take_le(s, m + 1, k);
    }
}

} // verus!
