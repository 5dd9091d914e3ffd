//! Rich-text objects held under handles, and the decision of how to answer
//! a build request: refresh the cached layout when the atlas changed, keep
//! the previous build when it did not, or build from scratch.

use vstd::prelude::*;
use std::collections::HashMap;

verus! {

broadcast use vstd::std_specs::hash::group_hash_axioms;

/// Microseconds spent in each phase of a build.
#[derive(Clone, Copy, Debug)]
pub struct BuildTimingUs {
    pub total: u64,
    pub parse: u64,
    pub shape: u64,
    pub ensure: u64,
    pub wrap: u64,
    pub layout: u64,
    pub verts: u64,
    pub refresh: u64,
}

impl Default for BuildTimingUs {
    fn default() -> (t: Self)
        ensures
            t.total == 0 && t.parse == 0 && t.shape == 0 && t.ensure == 0 && t.wrap == 0
                && t.layout == 0 && t.verts == 0 && t.refresh == 0,
    {
        BuildTimingUs {
            total: 0,
            parse: 0,
            shape: 0,
            ensure: 0,
            wrap: 0,
            layout: 0,
            verts: 0,
            refresh: 0,
        }
    }
}

/// Rich-text states by handle; handles are handed out from 1 up and never
/// reused.
pub struct RichTextStore<S> {
    next_handle: u64,
    states: HashMap<u64, S>,
}

impl<S> RichTextStore<S> {
    /// The states held.
    pub closed spec fn states(&self) -> Map<u64, S> {
        self.states@
    }

    /// The handle the next created state gets.
    pub closed spec fn next(&self) -> u64 {
        self.next_handle
    }

    /// Every handle is below the next one, and handles start at 1.
    pub closed spec fn wf(&self) -> bool {
        &&& self.next_handle >= 1
        &&& forall|h: u64| #[trigger] self.states@.contains_key(h) ==> 1 <= h < self.next_handle
    }

    /// No state held; the first handle is 1.
    pub fn new() -> (r: Self)
        ensures
            r.wf(),
            r.states() == Map::<u64, S>::empty(),
            r.next() == 1,
    {
        RichTextStore { next_handle: 1, states: HashMap::new() }
    }

    /// The state under `h`.
    pub fn get(&self, h: u64) -> (r: Option<&S>)
        ensures
            r is Some <==> self.states().contains_key(h),
            r matches Some(s) ==> *s == self.states()[h],
    {
        self.states.get(&h)
    }

    /// Hands out the next handle, or `None` once 2^64 - 1 were handed out.
    fn alloc_handle(&mut self) -> (r: Option<u64>)
        requires
            old(self).wf(),
        ensures
            final(self).states() == old(self).states(),
            old(self).next() == u64::MAX ==> r is None && final(self).next() == old(self).next(),
            old(self).next() < u64::MAX ==> r == Some(old(self).next()) && final(self).next()
                == old(self).next() + 1,
            r matches Some(h) ==> !old(self).states().contains_key(h) && 1 <= h,
            final(self).wf(),
    {
        if self.next_handle == u64::MAX {
            return None;
        }
        let h = self.next_handle;
        self.next_handle = h + 1;
        Some(h)
    }

    /// Takes the state under `h` out of the store, to be put back with
    /// `put_back` once changed.
    pub fn take(&mut self, h: u64) -> (r: Option<S>)
        requires
            old(self).wf(),
        ensures
            final(self).wf(),
            final(self).next() == old(self).next(),
            r is Some <==> old(self).states().contains_key(h),
            r matches Some(s) ==> s == old(self).states()[h],
            final(self).states() == old(self).states().remove(h),
    {
        self.states.remove(&h)
    }

    /// Puts a state back under a handle that was handed out; a handle that
    /// was not is ignored.
    pub fn put_back(&mut self, h: u64, s: S)
        requires
            old(self).wf(),
        ensures
            final(self).wf(),
            final(self).next() == old(self).next(),
            1 <= h < old(self).next() ==> final(self).states() == old(self).states().insert(h, s),
            !(1 <= h < old(self).next()) ==> final(self).states() == old(self).states(),
    {
        if 1 <= h && h < self.next_handle {
            self.states.insert(h, s);
        }
    }
}

/// Creates a rich-text state and gives its handle, or 0 (keeping nothing)
/// once 2^64 - 1 handles were handed out.
pub fn create<S>(store: &mut RichTextStore<S>, initial: S) -> (h: u64)
    requires
        old(store).wf(),
    ensures
        final(store).wf(),
        h == 0 <==> old(store).next() == u64::MAX,
        h == 0 ==> final(store).states() == old(store).states() && final(store).next() == old(
            store,
        ).next(),
        h != 0 ==> {
            &&& h == old(store).next()
            &&& final(store).next() == h + 1
            &&& !old(store).states().contains_key(h)
            &&& final(store).states() == old(store).states().insert(h, initial)
        },
{
    let h = match store.alloc_handle() {
        Some(h) => h,
        None => {
            return 0;
        },
    };
    store.states.insert(h, initial);
    h
}

/// Frees a rich-text state; true when the handle was held.
pub fn free<S>(store: &mut RichTextStore<S>, h: u64) -> (r: bool)
    requires
        old(store).wf(),
    ensures
        final(store).wf(),
        r == old(store).states().contains_key(h),
        final(store).states() == old(store).states().remove(h),
        final(store).next() == old(store).next(),
{
    let r = store.states.remove(&h);
    r.is_some()
}

/// What is known of the previous build of a rich text.
#[derive(Clone, Copy, Debug)]
pub struct BuiltSummary {
    /// The build kept its shaped and wrapped layout.
    pub has_layout: bool,
    /// The atlas version the build was made against.
    pub atlas_version: u64,
    /// Some glyph of the build was still being rendered.
    pub pending: bool,
}

/// How to answer a build request.
#[derive(Clone, Copy, Debug, PartialEq, Eq, Structural)]
pub enum BuildStep {
    /// Re-ensure the glyphs of the cached layout and rewrite its vertices.
    Refresh,
    /// The previous build stands; answer with this status and version.
    Keep { status: i32, version: u64 },
    /// Parse, shape and lay out from scratch.
    Full,
}

/// The status of a build: 0 while glyphs are pending, else 1, with the atlas
/// version it was made against.
pub fn build_status(pending: bool, version: u64) -> (r: (i32, u64))
    ensures
        r == (if pending { 0i32 } else { 1i32 }, version),
{
    (if pending { 0 } else { 1 }, version)
}

/// How a build request is answered (see `build`).
pub open spec fn build_spec(prev: Option<BuiltSummary>, atlas_version: u64) -> BuildStep {
    match prev {
        Some(p) => if p.has_layout {
            if p.atlas_version != atlas_version {
                BuildStep::Refresh
            } else {
                BuildStep::Keep {
                    status: if p.pending { 0i32 } else { 1i32 },
                    version: p.atlas_version,
                }
            }
        } else {
            BuildStep::Full
        },
        None => BuildStep::Full,
    }
}

/// Decides how to answer a build request, given the previous build (if
/// any) and the current atlas version. A previous build without a layout
/// is discarded and everything is built again.
pub fn build(prev: Option<BuiltSummary>, atlas_version: u64) -> (s: BuildStep)
    ensures
        s == build_spec(prev, atlas_version),
{
    match prev {
        Some(p) => {
            if p.has_layout {
                if p.atlas_version != atlas_version {
                    BuildStep::Refresh
                } else {
                    let (status, version) = build_status(p.pending, p.atlas_version);
                    BuildStep::Keep { status, version }
                }
            } else {
                BuildStep::Full
            }
        },
        None => BuildStep::Full,
    }
}

/// A build against an unchanged atlas keeps the previous build: the
/// answer is its status (0 while glyphs are pending, else 1) and version,
/// and nothing is rebuilt, so the stored build, and with it the answer to
/// the next request against the same atlas, stays the same.
pub proof fn law_unchanged_build_is_kept(p: BuiltSummary, v: u64)
    requires
        p.has_layout,
        p.atlas_version == v,
    ensures
        build_spec(Some(p), v) == (BuildStep::Keep { status: if p.pending { 0i32 } else { 1i32 }, version: v }),
{
}

} // verus!
