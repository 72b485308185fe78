//! The interning core: opaque per-domain identifiers and the bidirectional
//! registry that issues them.
//!
//! A registry canonicalizes domain values (strings) to compact identifiers
//! and can recover the value behind any identifier it issued.  Its invariant
//! is that the forward mapping (value to identifier) and the reverse mapping
//! (identifier to value) are exact inverses: every issued identifier stands
//! for exactly one value and every registered value owns exactly one
//! identifier.  Writes take `&mut`, so registration is serialized relative
//! to all reads by the borrow discipline.
use core::marker::PhantomData;

use rand::rngs::StdRng;
use rand::RngCore;
use rand::SeedableRng;
use vstd::prelude::*;

verus! {

/// An opaque, fixed-width identifier standing in for an interned domain
/// value.  The type parameter tags the identifier with its domain, so
/// identifiers from different vocabularies can never be confused.
#[derive(Debug, PartialEq, Eq, Hash)]
pub struct Atom<T>(u64, PhantomData<T>);

impl<T> Clone for Atom<T> {
    fn clone(&self) -> (r: Self)
        ensures
            r == *self,
    {
        Atom(self.0, PhantomData)
    }
}

impl<T> Copy for Atom<T> {}

impl<T> View for Atom<T> {
    type V = u64;

    closed spec fn view(&self) -> u64 {
        self.0
    }
}

impl<T> Atom<T> {
    /// The numeric identifier behind this atom.  Equality and hashing of an
    /// atom are defined solely by this value.
    pub fn id(&self) -> (r: u64)
        ensures
            r == self@,
    {
        self.0
    }
}

/// The pseudorandom source used to mint identifiers.
#[verifier::external_type_specification]
#[verifier::external_body]
pub struct ExStdRng(StdRng);

/// Relies on rand's `SeedableRng::from_entropy` for `StdRng`: a fresh
/// generator seeded from the operating system.  Nothing is promised of the
/// values it will produce; it aborts only if the system entropy source
/// fails.
#[verifier::external_body]
fn entropy_rng() -> StdRng {
    StdRng::from_entropy()
}

/// Relies on rand's `SeedableRng::seed_from_u64` for `StdRng`: a generator
/// whose output is reproducible from the seed.  Nothing is promised of the
/// values it will produce.
#[verifier::external_body]
fn seeded_rng(seed: u64) -> StdRng {
    StdRng::seed_from_u64(seed)
}

/// Relies on rand's `RngCore::next_u64` for `StdRng`: one draw from the
/// generator.  Nothing is promised of the value, so every caller must treat
/// it as arbitrary.
#[verifier::external_body]
fn next_raw(rng: &mut StdRng) -> u64 {
    rng.next_u64()
}

/// One per-domain intern table: the forward mapping from value to
/// identifier, its exact inverse, and the source of candidate identifiers.
pub struct Registry<T> {
    rng: StdRng,
    entries: Vec<(String, u64)>,
    marker: PhantomData<T>,
}

/// The forward mapping described by a sequence of entries: later entries
/// shadow earlier ones, though a well-formed registry never repeats a name.
spec fn fwd_of(s: Seq<(String, u64)>) -> Map<Seq<char>, u64>
    decreases s.len(),
{
    if s.len() == 0 {
        Map::empty()
    } else {
        fwd_of(s.drop_last()).insert(s.last().0@, s.last().1)
    }
}

/// The reverse mapping described by a sequence of entries.
spec fn rev_of(s: Seq<(String, u64)>) -> Map<u64, Seq<char>>
    decreases s.len(),
{
    if s.len() == 0 {
        Map::empty()
    } else {
        rev_of(s.drop_last()).insert(s.last().1, s.last().0@)
    }
}

/// No two entries carry the same name.
spec fn names_ok(s: Seq<(String, u64)>) -> bool {
    forall|i: int, j: int| 0 <= i < j < s.len() ==> s[i].0@ != s[j].0@
}

/// No two entries carry the same identifier.
spec fn ids_ok(s: Seq<(String, u64)>) -> bool {
    forall|i: int, j: int| 0 <= i < j < s.len() ==> s[i].1 != s[j].1
}

proof fn lemma_fwd_mem(s: Seq<(String, u64)>, n: Seq<char>)
    ensures
        fwd_of(s).contains_key(n) <==> exists|i: int| 0 <= i < s.len() && s[i].0@ == n,
    decreases s.len(),
{
    if s.len() > 0 {
        lemma_fwd_mem(s.drop_last(), n);
        assert(forall|i: int| 0 <= i < s.len() - 1 ==> s.drop_last()[i] == s[i]);
        if fwd_of(s).contains_key(n) {
            if s.last().0@ == n {
                assert(s[s.len() - 1].0@ == n);
            }
        }
        if exists|i: int| 0 <= i < s.len() && s[i].0@ == n {
            let i = choose|i: int| 0 <= i < s.len() && s[i].0@ == n;
            if i < s.len() - 1 {
                assert(s.drop_last()[i].0@ == n);
            }
        }
    }
}

proof fn lemma_rev_mem(s: Seq<(String, u64)>, id: u64)
    ensures
        rev_of(s).contains_key(id) <==> exists|i: int| 0 <= i < s.len() && s[i].1 == id,
    decreases s.len(),
{
    if s.len() > 0 {
        lemma_rev_mem(s.drop_last(), id);
        assert(forall|i: int| 0 <= i < s.len() - 1 ==> s.drop_last()[i] == s[i]);
        if rev_of(s).contains_key(id) {
            if s.last().1 == id {
                assert(s[s.len() - 1].1 == id);
            }
        }
        if exists|i: int| 0 <= i < s.len() && s[i].1 == id {
            let i = choose|i: int| 0 <= i < s.len() && s[i].1 == id;
            if i < s.len() - 1 {
                assert(s.drop_last()[i].1 == id);
            }
        }
    }
}

proof fn lemma_fwd_val(s: Seq<(String, u64)>, i: int)
    requires
        names_ok(s),
        0 <= i < s.len(),
    ensures
        fwd_of(s).contains_key(s[i].0@),
        fwd_of(s)[s[i].0@] == s[i].1,
    decreases s.len(),
{
    assert(forall|k: int| 0 <= k < s.len() - 1 ==> s.drop_last()[k] == s[k]);
    if i < s.len() - 1 {
        lemma_fwd_val(s.drop_last(), i);
        assert(s.last().0@ != s[i].0@);
    }
}

proof fn lemma_rev_val(s: Seq<(String, u64)>, i: int)
    requires
        ids_ok(s),
        0 <= i < s.len(),
    ensures
        rev_of(s).contains_key(s[i].1),
        rev_of(s)[s[i].1] == s[i].0@,
    decreases s.len(),
{
    assert(forall|k: int| 0 <= k < s.len() - 1 ==> s.drop_last()[k] == s[k]);
    if i < s.len() - 1 {
        lemma_rev_val(s.drop_last(), i);
        assert(s.last().1 != s[i].1);
    }
}

proof fn lemma_fwd_card(s: Seq<(String, u64)>)
    requires
        names_ok(s),
    ensures
        fwd_of(s).dom().finite(),
        fwd_of(s).dom().len() == s.len(),
    decreases s.len(),
{
    if s.len() == 0 {
        assert(fwd_of(s).dom() =~= Set::empty());
    } else {
        assert(forall|k: int| 0 <= k < s.len() - 1 ==> s.drop_last()[k] == s[k]);
        lemma_fwd_card(s.drop_last());
        lemma_fwd_mem(s.drop_last(), s.last().0@);
        assert(!fwd_of(s.drop_last()).contains_key(s.last().0@));
        assert(fwd_of(s).dom() =~= fwd_of(s.drop_last()).dom().insert(s.last().0@));
    }
}

proof fn lemma_rev_card(s: Seq<(String, u64)>)
    requires
        ids_ok(s),
    ensures
        rev_of(s).dom().finite(),
        rev_of(s).dom().len() == s.len(),
    decreases s.len(),
{
    if s.len() == 0 {
        assert(rev_of(s).dom() =~= Set::empty());
    } else {
        assert(forall|k: int| 0 <= k < s.len() - 1 ==> s.drop_last()[k] == s[k]);
        lemma_rev_card(s.drop_last());
        lemma_rev_mem(s.drop_last(), s.last().1);
        assert(!rev_of(s.drop_last()).contains_key(s.last().1));
        assert(rev_of(s).dom() =~= rev_of(s.drop_last()).dom().insert(s.last().1));
    }
}

/// The identifiers strictly below a bound form a set of that cardinality.
proof fn lemma_u64_below_card(n: u64)
    ensures
        Set::new(|x: u64| x < n).finite(),
        Set::new(|x: u64| x < n).len() == n,
    decreases n,
{
    if n == 0 {
        assert(Set::new(|x: u64| x < n) =~= Set::empty());
    } else {
        lemma_u64_below_card((n - 1) as u64);
        assert(Set::new(|x: u64| x < n) =~= Set::new(|x: u64| x < (n - 1) as u64).insert(
            (n - 1) as u64,
        ));
    }
}

impl<T> View for Registry<T> {
    type V = Map<Seq<char>, u64>;

    /// The forward mapping: registered value to identifier.
    closed spec fn view(&self) -> Map<Seq<char>, u64> {
        fwd_of(self.entries@)
    }
}

impl<T> Registry<T> {
    /// The reverse mapping: issued identifier to registered value.
    pub closed spec fn rev(&self) -> Map<u64, Seq<char>> {
        rev_of(self.entries@)
    }

    /// Well-formedness: no value was registered twice and no identifier was
    /// issued twice, so the two mappings are exact inverses.
    pub closed spec fn wf(&self) -> bool {
        names_ok(self.entries@) && ids_ok(self.entries@)
    }

    /// An empty registry whose identifier source is seeded from the
    /// operating system.
    pub fn new() -> (r: Registry<T>)
        ensures
            r.wf(),
            r@ == Map::<Seq<char>, u64>::empty(),
            r.rev() == Map::<u64, Seq<char>>::empty(),
    {
        Registry { rng: entropy_rng(), entries: Vec::new(), marker: PhantomData }
    }

    /// An empty registry whose identifier source is reproducible from the
    /// given seed, so identifier issuance can be made deterministic.
    pub fn with_seed(seed: u64) -> (r: Registry<T>)
        ensures
            r.wf(),
            r@ == Map::<Seq<char>, u64>::empty(),
            r.rev() == Map::<u64, Seq<char>>::empty(),
    {
        Registry { rng: seeded_rng(seed), entries: Vec::new(), marker: PhantomData }
    }

    /// How many values are registered; the reverse mapping holds exactly as
    /// many identifiers as the forward one holds values.
    pub fn len(&self) -> (r: usize)
        requires
            self.wf(),
        ensures
            r == self@.dom().len(),
            r == self.rev().dom().len(),
    {
        proof {
            lemma_fwd_card(self.entries@);
            lemma_rev_card(self.entries@);
        }
        self.entries.len()
    }

    /// Pure lookup in the forward mapping; never mutates and never fails
    /// loudly: absence is the only failure signal.
    pub fn lookup(&self, val: &str) -> (r: Option<Atom<T>>)
        requires
            self.wf(),
        ensures
            match r {
                Some(a) => self@.contains_key(val@) && a@ == self@[val@],
                None => !self@.contains_key(val@),
            },
    {
        let owned: String = val.to_owned();
        let n = self.entries.len();
        let mut i: usize = 0;
        while i < n
            invariant
                n == self.entries@.len(),
                i <= n,
                forall|j: int| 0 <= j < i ==> self.entries@[j].0@ != val@,
                owned@ == val@,
                self.wf(),
            decreases n - i,
        {
            if self.entries[i].0 == owned {
                proof {
                    lemma_fwd_val(self.entries@, i as int);
                }
                return Some(Atom(self.entries[i].1, PhantomData));
            }
            i += 1;
        }
        proof {
            lemma_fwd_mem(self.entries@, val@);
        }
        None
    }

    /// Looks up the domain value behind an identifier; absent exactly when
    /// the identifier was not issued by this registry, so an unknown
    /// identifier can never cause a crash.
    pub fn peek_value(&self, id: Atom<T>) -> (r: Option<&String>)
        requires
            self.wf(),
        ensures
            match r {
                Some(s) => self.rev().contains_key(id@) && s@ == self.rev()[id@],
                None => !self.rev().contains_key(id@),
            },
    {
        let n = self.entries.len();
        let mut i: usize = 0;
        while i < n
            invariant
                n == self.entries@.len(),
                i <= n,
                forall|j: int| 0 <= j < i ==> self.entries@[j].1 != id@,
                self.wf(),
            decreases n - i,
        {
            if self.entries[i].1 == id.0 {
                proof {
                    lemma_rev_val(self.entries@, i as int);
                }
                return Some(&self.entries[i].0);
            }
            i += 1;
        }
        proof {
            lemma_rev_mem(self.entries@, id@);
        }
        None
    }

    /// Whether some entry already owns this identifier.
    fn contains_id(&self, id: u64) -> (r: bool)
        requires
            self.wf(),
        ensures
            r <==> self.rev().contains_key(id),
    {
        let n = self.entries.len();
        let mut i: usize = 0;
        while i < n
            invariant
                n == self.entries@.len(),
                i <= n,
                forall|j: int| 0 <= j < i ==> self.entries@[j].1 != id,
                self.wf(),
            decreases n - i,
        {
            if self.entries[i].1 == id {
                proof {
                    lemma_rev_val(self.entries@, i as int);
                }
                return true;
            }
            i += 1;
        }
        proof {
            lemma_rev_mem(self.entries@, id);
        }
        false
    }

    /// A free identifier found by scanning upward from zero.  Because the
    /// registry holds `n` entries with pairwise distinct identifiers, at
    /// least one of the `n + 1` candidates `0 ..= n` is free.
    fn fallback_id(&self) -> (r: u64)
        requires
            self.wf(),
        ensures
            !self.rev().contains_key(r),
    {
        let n: u64 = self.entries.len() as u64;
        let mut id: u64 = 0;
        while id < n
            invariant
                id <= n,
                n == self.entries@.len(),
                self.wf(),
                forall|j: u64| j < id ==> self.rev().contains_key(j),
            decreases n - id,
        {
            if !self.contains_id(id) {
                return id;
            }
            id += 1;
        }
        proof {
            let c = Set::new(|x: u64| x < n);
            lemma_u64_below_card(n);
            lemma_rev_card(self.entries@);
            if self.rev().contains_key(n) {
                assert(c.insert(n).subset_of(self.rev().dom()));
                vstd::set_lib::lemma_len_subset(c.insert(n), self.rev().dom());
                assert(c.insert(n).len() == n as nat + 1);
                assert(false);
            }
        }
        n
    }

    /// A fresh identifier: drawn uniformly at random from the 64-bit space
    /// and redrawn while it collides with an issued one (rejection
    /// sampling); after a sane retry bound the draw falls back to a scan,
    /// so issuance stays live whatever the source produced.
    fn fresh_id(&mut self) -> (r: u64)
        requires
            old(self).wf(),
        ensures
            final(self).wf(),
            final(self)@ == old(self)@,
            final(self).rev() == old(self).rev(),
            !final(self).rev().contains_key(r),
    {
        let mut attempts: usize = 0;
        while attempts < 64
            invariant
                self.wf(),
                self@ == old(self)@,
                self.rev() == old(self).rev(),
            decreases 64 - attempts,
        {
            let id = next_raw(&mut self.rng);
            if !self.contains_id(id) {
                return id;
            }
            attempts += 1;
        }
        self.fallback_id()
    }

    /// Bulk registration: every given value is present in the forward
    /// mapping afterwards, values already known keep their identifier
    /// untouched, and no value outside the given ones appears.  Registering
    /// the same values again is a no-op.
    pub fn register(&mut self, values: &Vec<String>)
        requires
            old(self).wf(),
        ensures
            final(self).wf(),
            old(self)@.submap_of(final(self)@),
            forall|i: int|
                0 <= i < values@.len() ==> #[trigger] final(self)@.contains_key(values@[i]@),
            forall|n: Seq<char>|
                #[trigger] final(self)@.contains_key(n) ==> old(self)@.contains_key(n) || exists|
                    i: int,
                |
                    0 <= i < values@.len() && values@[i]@ == n,
    {
        let n = values.len();
        let mut vi: usize = 0;
        while vi < n
            invariant
                n == values@.len(),
                vi <= n,
                self.wf(),
                old(self)@.submap_of(self@),
                forall|i: int| 0 <= i < vi ==> #[trigger] self@.contains_key(values@[i]@),
                forall|k: Seq<char>|
                    #[trigger] self@.contains_key(k) ==> old(self)@.contains_key(k) || exists|
                        i: int,
                    |
                        0 <= i < values@.len() && values@[i]@ == k,
            decreases n - vi,
        {
            let known = self.lookup(values[vi].as_str()).is_some();
            if !known {
                let id = self.fresh_id();
                let ghost pre = self.entries@;
                let name = values[vi].clone();
                self.entries.push((name, id));
                proof {
                    assert(self.entries@.drop_last() =~= pre);
                    lemma_fwd_mem(pre, values@[vi as int]@);
                    lemma_rev_mem(pre, id);
                    assert(self@ == fwd_of(pre).insert(values@[vi as int]@, id));
                    assert forall|k: Seq<char>| old(self)@.dom().contains(k) implies self@.dom().contains(k)
                        && self@[k] == old(self)@[k] by {
                        assert(fwd_of(pre).dom().contains(k));
                        assert(k != values@[vi as int]@);
                    }
                    assert forall|i: int, j: int|
                        0 <= i < j < self.entries@.len() implies self.entries@[i].0@
                        != self.entries@[j].0@ && self.entries@[i].1 != self.entries@[j].1 by {
                        if j == self.entries@.len() - 1 {
                            if self.entries@[i].0@ == self.entries@[j].0@ {
                                assert(pre[i].0@ == values@[vi as int]@);
                            }
                            if self.entries@[i].1 == self.entries@[j].1 {
                                assert(pre[i].1 == id);
                            }
                        }
                    }
                }
            }
            vi += 1;
        }
    }
}

impl<T> Default for Registry<T> {
    /// An empty registry, as `new` builds one.
    fn default() -> (r: Registry<T>)
        ensures
            r.wf(),
            r@ == Map::<Seq<char>, u64>::empty(),
            r.rev() == Map::<u64, Seq<char>>::empty(),
    {
        Registry::new()
    }
}

/// Bijection law: in a well-formed registry the forward and reverse
/// mappings hold exactly as many entries as each other and are exact
/// inverses of one another.
pub proof fn lemma_bijection<T>(reg: &Registry<T>)
    requires
        reg.wf(),
    ensures
        reg@.dom().finite(),
        reg.rev().dom().finite(),
        reg@.dom().len() == reg.rev().dom().len(),
        forall|n: Seq<char>|
            #[trigger] reg@.contains_key(n) ==> reg.rev().contains_key(reg@[n])
                && reg.rev()[reg@[n]] == n,
        forall|id: u64|
            #[trigger] reg.rev().contains_key(id) ==> reg@.contains_key(reg.rev()[id])
                && reg@[reg.rev()[id]] == id,
{
    let s = reg.entries@;
    lemma_fwd_card(s);
    lemma_rev_card(s);
    assert forall|n: Seq<char>| #[trigger] reg@.contains_key(n) implies reg.rev().contains_key(
        reg@[n],
    ) && reg.rev()[reg@[n]] == n by {
        lemma_fwd_mem(s, n);
        let i = choose|i: int| 0 <= i < s.len() && s[i].0@ == n;
        lemma_fwd_val(s, i);
        lemma_rev_val(s, i);
    }
    assert forall|id: u64| #[trigger] reg.rev().contains_key(id) implies reg@.contains_key(
        reg.rev()[id],
    ) && reg@[reg.rev()[id]] == id by {
        lemma_rev_mem(s, id);
        let i = choose|i: int| 0 <= i < s.len() && s[i].1 == id;
        lemma_rev_val(s, i);
        lemma_fwd_val(s, i);
    }
}

/// Distinctness law: a well-formed registry never gives two distinct values
/// the same identifier.
pub proof fn lemma_distinct_ids<T>(reg: &Registry<T>, n1: Seq<char>, n2: Seq<char>)
    requires
        reg.wf(),
        reg@.contains_key(n1),
        reg@.contains_key(n2),
        n1 != n2,
    ensures
        reg@[n1] != reg@[n2],
{
    lemma_bijection(reg);
}

/// Round-trip law: recovering the value behind the identifier of any
/// registered value gives that value back.
pub proof fn lemma_round_trip<T>(reg: &Registry<T>, n: Seq<char>)
    requires
        reg.wf(),
        reg@.contains_key(n),
    ensures
        reg.rev().contains_key(reg@[n]),
        reg.rev()[reg@[n]] == n,
{
    lemma_bijection(reg);
}

} // verus!
