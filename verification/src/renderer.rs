//! The resource registry: exclusive owner of the GPU buffers and textures,
//! behind opaque handles, with a path-keyed texture cache whose loads are
//! idempotent.
//!
//! The registry is generic in the resource values it stores; the embedding
//! program instantiates it with its device's buffer and texture objects and
//! performs the actual GPU allocation, handing the created value in. All
//! bookkeeping — handle assignment, liveness, cache hits — is verified here.

use crate::handles::HandleMap;
use vstd::prelude::*;

verus! {

/// Minimum alignment, in bytes, that the graphics API demands for a
/// buffer that is bound as a uniform.
pub const BIND_BUFFER_ALIGNMENT: u64 = 256;

/// Rounds the size of `T` up to a multiple of `alignment`, always
/// reserving one extra alignment block — a type that already sits on a
/// boundary still gets a full additional block.
pub fn get_aligned<T: Sized>(alignment: u64) -> (r: u64)
    requires
        1 <= alignment,
        vstd::layout::size_of::<T>() + alignment + alignment <= u64::MAX,
    ensures
        r == alignment * ((vstd::layout::size_of::<T>() as u64) / alignment) + alignment,
        r >= vstd::layout::size_of::<T>(),
        r % alignment == 0,
{
    let s: u64 = core::mem::size_of::<T>() as u64;
    proof {
        let a = alignment as int;
        let q = s as int / a;
        vstd::arithmetic::div_mod::lemma_fundamental_div_mod(s as int, a);
        vstd::arithmetic::div_mod::lemma_mod_bound(s as int, a);
        vstd::arithmetic::div_mod::lemma_mod_multiples_basic(q + 1, a);
        assert((q + 1) * a == a * q + a) by (nonlinear_arith);
    }
    alignment * (s / alignment) + alignment
}

/// Size in bytes of a buffer that holds one `T` and satisfies the uniform
/// binding alignment.
pub fn get_buffer_size<T: Sized>() -> (r: u64)
    requires
        vstd::layout::size_of::<T>() + 512 <= u64::MAX,
    ensures
        r == 256 * ((vstd::layout::size_of::<T>() as u64) / 256) + 256,
        r >= vstd::layout::size_of::<T>(),
        r % 256 == 0,
{
    get_aligned::<T>(BIND_BUFFER_ALIGNMENT)
}

/// One texture-cache entry: a source path and the handle it resolved to.
pub struct PathEntry {
    pub path: String,
    pub id: u64,
}

/// The mathematical contents of the path cache, later entries winning.
pub open spec fn path_map(s: Seq<PathEntry>) -> Map<Seq<char>, u64>
    decreases s.len(),
{
    if s.len() == 0 {
        Map::empty()
    } else {
        path_map(s.drop_last()).insert(s.last().path@, s.last().id)
    }
}

/// A path is in the cache contents exactly when some entry carries it.
pub proof fn lemma_path_map_membership(s: Seq<PathEntry>)
    ensures
        forall|p: Seq<char>|
            path_map(s).contains_key(p) <==> exists|i: int|
                0 <= i < s.len() && #[trigger] s[i].path@ == p,
    decreases s.len(),
{
    if s.len() > 0 {
        lemma_path_map_membership(s.drop_last());
        assert forall|p: Seq<char>| path_map(s).contains_key(p) implies exists|i: int|
            0 <= i < s.len() && #[trigger] s[i].path@ == p by {
            if p == s.last().path@ {
                assert(s[s.len() - 1].path@ == p);
            } else {
                assert(path_map(s.drop_last()).contains_key(p));
                let i = choose|i: int|
                    0 <= i < s.drop_last().len() && #[trigger] s.drop_last()[i].path@ == p;
                assert(s[i].path@ == p);
            }
        }
        assert forall|p: Seq<char>|
            exists|i: int| 0 <= i < s.len() && #[trigger] s[i].path@ == p implies path_map(
            s,
        ).contains_key(p) by {
            let i = choose|i: int| 0 <= i < s.len() && #[trigger] s[i].path@ == p;
            if i < s.len() - 1 {
                assert(s.drop_last()[i].path@ == p);
                assert(path_map(s.drop_last()).contains_key(p));
            }
        }
    }
}

/// With distinct paths, each entry's handle is what the cache holds for
/// its path.
pub proof fn lemma_path_map_index(s: Seq<PathEntry>, i: int)
    requires
        forall|p: int, q: int|
            0 <= p < q < s.len() ==> #[trigger] s[p].path@ != #[trigger] s[q].path@,
        0 <= i < s.len(),
    ensures
        path_map(s).contains_key(s[i].path@),
        path_map(s)[s[i].path@] == s[i].id,
    decreases s.len(),
{
    lemma_path_map_membership(s);
    if i < s.len() - 1 {
        lemma_path_map_index(s.drop_last(), i);
        assert(s.drop_last()[i] == s[i]);
        assert(s[i].path@ != s.last().path@);
    }
}

/// Re-pointing the entry at `i` to a new handle updates exactly its path
/// in the contents.
pub proof fn lemma_path_map_update(s: Seq<PathEntry>, i: int, e: PathEntry)
    requires
        forall|p: int, q: int|
            0 <= p < q < s.len() ==> #[trigger] s[p].path@ != #[trigger] s[q].path@,
        0 <= i < s.len(),
        e.path@ == s[i].path@,
    ensures
        path_map(s.update(i, e)) =~= path_map(s).insert(s[i].path@, e.id),
    decreases s.len(),
{
    let s2 = s.update(i, e);
    if i == s.len() - 1 {
        assert(s2.drop_last() =~= s.drop_last());
        assert(s2.last() == e);
    } else {
        lemma_path_map_update(s.drop_last(), i, e);
        assert(s2.drop_last() =~= s.drop_last().update(i, e));
        assert(s2.last() == s.last());
        assert(s[i].path@ != s.last().path@);
        assert(path_map(s.drop_last()).insert(s[i].path@, e.id).insert(
            s.last().path@,
            s.last().id,
        ) =~= path_map(s.drop_last()).insert(s.last().path@, s.last().id).insert(
            s[i].path@,
            e.id,
        ));
    }
}

/// The path-keyed texture cache: maps a source path to the handle its
/// texture was filed under. Entries are never evicted; a reload of a path
/// whose texture has been destroyed re-points the same entry.
pub struct PathCache {
    pub entries: Vec<PathEntry>,
}

impl PathCache {
    /// What the cache holds, keyed by the characters of the path.
    pub open spec fn contents(self) -> Map<Seq<char>, u64> {
        path_map(self.entries@)
    }

    /// Every path is cached at most once.
    pub open spec fn wf(self) -> bool {
        forall|p: int, q: int|
            0 <= p < q < self.entries@.len() ==> #[trigger] self.entries@[p].path@
                != #[trigger] self.entries@[q].path@
    }

    /// An empty cache.
    pub fn new() -> (r: PathCache)
        ensures
            r.wf(),
            r.contents() == Map::<Seq<char>, u64>::empty(),
    {
        PathCache { entries: Vec::new() }
    }

    fn find(&self, path: &String) -> (r: Option<usize>)
        ensures
            match r {
                Some(i) => i < self.entries@.len() && self.entries@[i as int].path@ == path@,
                None => forall|i: int|
                    0 <= i < self.entries@.len() ==> #[trigger] self.entries@[i].path@ != path@,
            },
    {
        let mut i: usize = 0;
        while i < self.entries.len()
            invariant
                i <= self.entries@.len(),
                forall|j: int| 0 <= j < i ==> #[trigger] self.entries@[j].path@ != path@,
            decreases self.entries@.len() - i,
        {
            if self.entries[i].path.eq(path) {
                return Some(i);
            }
            i += 1;
        }
        None
    }

    /// The handle cached for `path`, if any.
    pub fn lookup(&self, path: &String) -> (r: Option<u64>)
        requires
            self.wf(),
        ensures
            r == if self.contents().contains_key(path@) {
                Some(self.contents()[path@])
            } else {
                Option::<u64>::None
            },
    {
        proof {
            lemma_path_map_membership(self.entries@);
        }
        match self.find(path) {
            Some(i) => {
                proof {
                    lemma_path_map_index(self.entries@, i as int);
                }
                Some(self.entries[i].id)
            },
            None => None,
        }
    }

    /// Caches `path -> id`, overwriting a stale entry for the same path.
    pub fn set(&mut self, path: &String, id: u64)
        requires
            old(self).wf(),
        ensures
            final(self).wf(),
            final(self).contents() == old(self).contents().insert(path@, id),
    {
        proof {
            lemma_path_map_membership(self.entries@);
        }
        let found = self.find(path);
        match found {
            Some(i) => {
                proof {
                    lemma_path_map_update(
                        self.entries@,
                        i as int,
                        (PathEntry { path: self.entries@[i as int].path, id }),
                    );
                }
                let e = vstd::std_specs::vec::vec_index_mut(&mut self.entries, i);
                e.id = id;
            },
            None => {
                let p = path.clone();
                self.entries.push(PathEntry { path: p, id });
                proof {
                    assert(final(self).entries@.drop_last() =~= old(self).entries@);
                }
            },
        }
    }
}

/// What a texture load finds in the registry: the cached handle, provided
/// the path is cached and its texture is still live.
pub open spec fn texture_lookup_model<Tex>(
    cache: Map<Seq<char>, u64>,
    textures: Map<u64, Tex>,
    path: Seq<char>,
) -> Option<u64> {
    if cache.contains_key(path) && textures.contains_key(cache[path]) {
        Some(cache[path])
    } else {
        None
    }
}

/// Idempotent texture load. A lookup takes `&self` and so never changes
/// the registry: looking a path up twice yields the same answer. This
/// lemma covers the other half: once a missed path is registered under
/// the fresh counter handle, every later lookup of that path returns
/// exactly the handle that registration produced, and registration grew
/// the texture store by exactly one — a second load of the same path hits
/// the cache and uploads nothing.
pub proof fn lemma_load_texture_idempotent<Tex>(
    cache: Map<Seq<char>, u64>,
    textures: Map<u64, Tex>,
    ctr: u64,
    path: Seq<char>,
    tex: Tex,
)
    requires
        texture_lookup_model(cache, textures, path) is None,
        !textures.contains_key(ctr),
        textures.dom().finite(),
    ensures
        texture_lookup_model(cache.insert(path, ctr), textures.insert(ctr, tex), path) == Some(
            ctr,
        ),
        textures.insert(ctr, tex).dom().len() == textures.dom().len() + 1,
{
    assert(textures.insert(ctr, tex).dom() =~= textures.dom().insert(ctr));
}

/// The resource registry: owns every GPU buffer and texture behind a
/// handle, plus the path-keyed texture cache. Buffers and textures draw
/// their handles from independent counters.
pub struct Resources<Buf, Tex> {
    pub buffers: HandleMap<Buf>,
    pub textures: HandleMap<Tex>,
    pub texture_cache: PathCache,
}

impl<Buf, Tex> Resources<Buf, Tex> {
    /// All three stores are well formed.
    pub open spec fn wf(self) -> bool {
        &&& self.buffers.wf()
        &&& self.textures.wf()
        &&& self.texture_cache.wf()
    }

    /// An empty registry with both handle counters at zero.
    pub fn new() -> (r: Resources<Buf, Tex>)
        ensures
            r.wf(),
            r.buffers.contents() == Map::<u64, Buf>::empty(),
            r.textures.contents() == Map::<u64, Tex>::empty(),
            r.texture_cache.contents() == Map::<Seq<char>, u64>::empty(),
            r.buffers.next == 0,
            r.textures.next == 0,
    {
        Resources { buffers: HandleMap::new(), textures: HandleMap::new(), texture_cache: PathCache::new() }
    }

    /// Stores a freshly created GPU buffer and returns its new handle,
    /// the next buffer counter value.
    pub fn load_buffer(&mut self, buffer: Buf) -> (h: u64)
        requires
            old(self).wf(),
            old(self).buffers.next < u64::MAX,
        ensures
            final(self).wf(),
            h == old(self).buffers.next,
            !old(self).buffers.contents().contains_key(h),
            final(self).buffers.contents() == old(self).buffers.contents().insert(h, buffer),
            final(self).buffers.next == old(self).buffers.next + 1,
            final(self).textures == old(self).textures,
            final(self).texture_cache == old(self).texture_cache,
    {
        self.buffers.insert(buffer)
    }

    /// Removes and hands back the buffer behind a live handle; the handle
    /// is invalid from here on. A caller holding a stale handle is a
    /// programming error, so liveness is demanded up front.
    pub fn unload_buffer(&mut self, id: u64) -> (r: Buf)
        requires
            old(self).wf(),
            old(self).buffers.contents().contains_key(id),
        ensures
            final(self).wf(),
            final(self).buffers.contents() == old(self).buffers.contents().remove(id),
            r == old(self).buffers.contents()[id],
            final(self).buffers.next == old(self).buffers.next,
            final(self).textures == old(self).textures,
            final(self).texture_cache == old(self).texture_cache,
    {
        self.buffers.remove(id)
    }

    /// Borrows the buffer behind a live handle, for the duration of the
    /// current operation only.
    pub fn get_buffer(&self, id: u64) -> (r: &Buf)
        requires
            self.wf(),
            self.buffers.contents().contains_key(id),
        ensures
            *r == self.buffers.contents()[id],
    {
        match self.buffers.get(id) {
            Some(b) => b,
            None => {
                proof {
                    assert(false);
                }
                vstd::pervasive::unreached()
            },
        }
    }

    /// Borrows the texture behind a live handle.
    pub fn get_texture(&self, id: u64) -> (r: &Tex)
        requires
            self.wf(),
            self.textures.contents().contains_key(id),
        ensures
            *r == self.textures.contents()[id],
    {
        match self.textures.get(id) {
            Some(t) => t,
            None => {
                proof {
                    assert(false);
                }
                vstd::pervasive::unreached()
            },
        }
    }

    /// The cached half of a texture load: the handle for `path` if it was
    /// loaded before and its texture is still live. Takes `&self`, so a
    /// hit never touches the registry — no duplicate upload.
    pub fn lookup_texture(&self, path: &String) -> (r: Option<u64>)
        requires
            self.wf(),
        ensures
            r == texture_lookup_model(
                self.texture_cache.contents(),
                self.textures.contents(),
                path@,
            ),
    {
        match self.texture_cache.lookup(path) {
            Some(id) => {
                if self.textures.contains(id) {
                    Some(id)
                } else {
                    None
                }
            },
            None => None,
        }
    }

    /// The miss half of a texture load: files the decoded and uploaded
    /// texture under the next texture counter value and caches its path.
    /// Afterwards a lookup of the same path yields exactly this handle —
    /// the load is idempotent from here on.
    pub fn register_texture(&mut self, path: &String, texture: Tex) -> (h: u64)
        requires
            old(self).wf(),
            texture_lookup_model(
                old(self).texture_cache.contents(),
                old(self).textures.contents(),
                path@,
            ) is None,
            old(self).textures.next < u64::MAX,
        ensures
            final(self).wf(),
            h == old(self).textures.next,
            !old(self).textures.contents().contains_key(h),
            final(self).textures.contents() == old(self).textures.contents().insert(h, texture),
            final(self).textures.next == old(self).textures.next + 1,
            final(self).texture_cache.contents() == old(self).texture_cache.contents().insert(
                path@,
                h,
            ),
            final(self).buffers == old(self).buffers,
            texture_lookup_model(
                final(self).texture_cache.contents(),
                final(self).textures.contents(),
                path@,
            ) == Some(h),
    {
        let h = self.textures.insert(texture);
        self.texture_cache.set(path, h);
        h
    }
}

} // verus!
