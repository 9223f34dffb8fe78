use crate::value::Value;
use vstd::prelude::*;

verus! {

/// Errors the constant pool reports instead of aborting, so that a host
/// can choose whether to recover.
#[derive(Debug, Clone, Copy, PartialEq, Eq, Structural)]
pub enum PoolError {
    /// `init` was called on a pool that was already initialized.
    AlreadyInitialized,
    /// The backing storage could not allocate a slot for a new entry.
    PoolExhausted,
}

/// The pool's backing store: a `sharded_slab::Slab`, whose storage is
/// partitioned into independently locked shards so that concurrent
/// producers can intern without one global lock. Opaque to the verifier;
/// `slab_entries` names what it holds.
#[verifier::external_body]
pub struct Store {
    slab: sharded_slab::Slab<Value>,
}

/// The entries the backing store holds: each occupied key, mapped to the
/// stored literal's bit pattern and rendered text.
pub uninterp spec fn slab_entries(s: Store) -> Map<usize, (u64, Seq<char>)>;

/// The empty entry map.
pub open spec fn empty_entries() -> Map<usize, (u64, Seq<char>)> {
    Map::empty()
}

/// Relies on sharded_slab::Slab::new: a fresh slab holds no entries.
#[verifier::external_body]
fn slab_new() -> (fresh: Store)
    ensures
        slab_entries(fresh) == empty_entries(),
{
    Store { slab: sharded_slab::Slab::new() }
}

/// Relies on sharded_slab::Slab::insert: on success the value is stored
/// under a key that no current entry occupies and every other entry is
/// untouched; on failure (the current shard is full) nothing changes.
/// The slab aborts the process when more threads than its configured
/// shard count have ever inserted; no argument of this call controls
/// that.
#[verifier::external_body]
fn slab_insert(s: &mut Store, value: Value) -> (r: Option<usize>)
    ensures
        match r {
            Some(k) => !slab_entries(*old(s)).dom().contains(k) && slab_entries(*final(s))
                == slab_entries(*old(s)).insert(k, (value.bits, value.text@)),
            None => slab_entries(*final(s)) == slab_entries(*old(s)),
        },
{
    s.slab.insert(value)
}

/// Relies on sharded_slab::Slab::get: returns the entry stored under
/// `key`, or nothing when no entry has that key.
#[verifier::external_body]
fn slab_get(s: &Store, key: usize) -> (r: Option<Value>)
    ensures
        match r {
            Some(v) => slab_entries(*s).dom().contains(key) && slab_entries(*s)[key] == (
                v.bits,
                v.text@,
            ),
            None => !slab_entries(*s).dom().contains(key),
        },
{
    s.slab.get(key).map(|entry| (*entry).clone())
}

/// The constant pool: an append-only, concurrency-safe store of literal
/// values, each held under a stable integer key.
///
/// The pool starts uninitialized; `init` performs its one-time setup.
/// Entries are never removed or mutated, so a key, once issued, resolves
/// to the value it was issued for as long as the pool lives.
pub struct Constants {
    initialized: bool,
    slab: Store,
}

/// The pool `post` holds everything `pre` held: what any operation of
/// `Constants` does to a pool.
pub open spec fn extends(pre: Constants, post: Constants) -> bool {
    &&& pre.entries().submap_of(post.entries())
    &&& (pre.is_init() ==> post.is_init())
}

/// The step `set` takes on success: `key` was free in `pre` and `post`
/// holds `entry` under it, everything else untouched.
pub open spec fn issued(pre: Constants, post: Constants, key: usize, entry: (u64, Seq<char>)) -> bool {
    &&& pre.is_init()
    &&& !pre.entries().dom().contains(key)
    &&& post.entries() == pre.entries().insert(key, entry)
}

impl Constants {
    /// Whether `init` has completed on this pool.
    pub closed spec fn is_init(&self) -> bool {
        self.initialized
    }

    /// The entries interned so far: each issued key, mapped to the stored
    /// literal's bit pattern and rendered text.
    pub closed spec fn entries(&self) -> Map<usize, (u64, Seq<char>)> {
        if self.initialized {
            slab_entries(self.slab)
        } else {
            Map::empty()
        }
    }

    /// Returns a pool on which `init` has not yet run.
    pub fn new() -> (c: Constants)
        ensures
            !c.is_init(),
            c.entries() == empty_entries(),
    {
        Constants { initialized: false, slab: slab_new() }
    }

    /// One-time setup of the pool. A second call fails with
    /// `AlreadyInitialized` and leaves the pool as it was.
    pub fn init(&mut self) -> (r: Result<(), PoolError>)
        ensures
            r is Ok <==> !old(self).is_init(),
            final(self).is_init(),
            match r {
                Ok(()) => final(self).entries() == empty_entries(),
                Err(e) => e == PoolError::AlreadyInitialized && final(self).entries() == old(
                    self,
                ).entries(),
            },
            extends(*old(self), *final(self)),
    {
        if self.initialized {
            Err(PoolError::AlreadyInitialized)
        } else {
            self.slab = slab_new();
            self.initialized = true;
            Ok(())
        }
    }

    /// Whether `init` has completed on this pool.
    pub fn initialized(&self) -> (r: bool)
        ensures
            r == self.is_init(),
    {
        self.initialized
    }

    /// Interns `value`, returning a newly minted key distinct from every
    /// key issued so far. Returns `None` without touching the pool when it
    /// is not initialized, or when the backing storage cannot allocate a
    /// slot (resource exhaustion).
    pub fn set(&mut self, value: Value) -> (r: Option<usize>)
        ensures
            final(self).is_init() == old(self).is_init(),
            !old(self).is_init() ==> r is None && final(self).entries() == old(self).entries(),
            old(self).is_init() ==> match r {
                Some(key) => issued(*old(self), *final(self), key, (value.bits, value.text@)),
                None => final(self).entries() == old(self).entries(),
            },
            extends(*old(self), *final(self)),
    {
        if !self.initialized {
            return None;
        }
        let r = slab_insert(&mut self.slab, value);
        proof {
            match r {
                Some(key) => lemma_insert_submap(
                    old(self).entries(),
                    key,
                    (value.bits, value.text@),
                ),
                None => {},
            }
        }
        r
    }

    /// Looks the key up: returns the value stored under it, or nothing
    /// when no entry of this pool has that key (an unknown key, or a pool
    /// on which `init` has not run).
    pub fn get(&self, key: usize) -> (r: Option<Value>)
        ensures
            !self.is_init() ==> r is None,
            match r {
                Some(v) => self.entries().dom().contains(key) && self.entries()[key] == (
                    v.bits,
                    v.text@,
                ),
                None => !self.entries().dom().contains(key),
            },
    {
        if !self.initialized {
            return None;
        }
        slab_get(&self.slab, key)
    }
}

/// A map is a submap of itself extended at a fresh key.
proof fn lemma_insert_submap(m: Map<usize, (u64, Seq<char>)>, k: usize, v: (u64, Seq<char>))
    requires
        !m.dom().contains(k),
    ensures
        m.submap_of(m.insert(k, v)),
{
    assert forall|x: usize| #[trigger] m.dom().contains(x) implies m.insert(k, v).dom().contains(x)
        && m.insert(k, v)[x] == m[x] by {}
}

/// Law: a key, once issued, resolves to the same value for as long as the
/// pool lives: every pool operation extends the entries, and an entry of
/// the smaller pool is an entry of the larger.
pub proof fn lemma_issued_key_stable(pre: Constants, post: Constants, key: usize)
    requires
        extends(pre, post),
        pre.entries().dom().contains(key),
    ensures
        post.entries().dom().contains(key),
        post.entries()[key] == pre.entries()[key],
{
    assert(post.entries().dom().contains(key) && post.entries()[key] == pre.entries()[key]) by {
        assert(pre.entries().submap_of(post.entries()));
        assert(pre.entries().dom().contains(key));
    }
}

/// Law: keys issued by the pool are pairwise distinct across its
/// lifetime, whatever the values inserted: a later `set` cannot hand out
/// a key an earlier one issued.
pub proof fn lemma_issued_keys_distinct(
    p1: Constants,
    p2: Constants,
    p3: Constants,
    p4: Constants,
    k1: usize,
    k2: usize,
    e1: (u64, Seq<char>),
    e2: (u64, Seq<char>),
)
    requires
        issued(p1, p2, k1, e1),
        extends(p2, p3),
        issued(p3, p4, k2, e2),
    ensures
        k1 != k2,
{
    assert(p2.entries().dom().contains(k1));
    assert(p3.entries().dom().contains(k1));
}

} // verus!
