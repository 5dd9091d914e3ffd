//! Text shaping support: the choice of bidirectional runs, the split of a
//! run into same-font pieces, script detection for right-to-left runs, the
//! bounded least-recently-used cache of shaped runs, and the registry of
//! shaped texts handed out under handles.

use vstd::prelude::*;
use std::collections::HashMap;

verus! {

broadcast use vstd::std_specs::hash::group_hash_axioms;

/// The Unicode bidirectional class of a character.
#[derive(Debug, Clone, Copy, PartialEq, Eq, Structural)]
pub enum BidiClassKind {
    AL,
    AN,
    B,
    BN,
    CS,
    EN,
    ES,
    ET,
    FSI,
    L,
    LRE,
    LRI,
    LRO,
    NSM,
    ON,
    PDF,
    PDI,
    R,
    RLE,
    RLI,
    RLO,
    S,
    WS,
}

/// The number of the bidirectional class `unicode_bidi` gives character
/// `c`: the place of the class in the crate's `BidiClass` declaration.
pub uninterp spec fn bidi_class_code(c: char) -> u8;

/// Calls `unicode_bidi::bidi_class`, a table lookup by character, and
/// gives the number of the class; `BidiClass` has 23 fieldless variants,
/// numbered from 0 in declaration order.
#[verifier::external_body]
fn char_bidi_class_code(c: char) -> (k: u8)
    ensures
        k == bidi_class_code(c),
        k < 23,
{
    unicode_bidi::bidi_class(c) as u8
}

/// The class with number `k` in the order of `BidiClassKind`.
pub open spec fn class_kind(k: u8) -> BidiClassKind {
    if k == 0 {
        BidiClassKind::AL
    } else if k == 1 {
        BidiClassKind::AN
    } else if k == 2 {
        BidiClassKind::B
    } else if k == 3 {
        BidiClassKind::BN
    } else if k == 4 {
        BidiClassKind::CS
    } else if k == 5 {
        BidiClassKind::EN
    } else if k == 6 {
        BidiClassKind::ES
    } else if k == 7 {
        BidiClassKind::ET
    } else if k == 8 {
        BidiClassKind::FSI
    } else if k == 9 {
        BidiClassKind::L
    } else if k == 10 {
        BidiClassKind::LRE
    } else if k == 11 {
        BidiClassKind::LRI
    } else if k == 12 {
        BidiClassKind::LRO
    } else if k == 13 {
        BidiClassKind::NSM
    } else if k == 14 {
        BidiClassKind::ON
    } else if k == 15 {
        BidiClassKind::PDF
    } else if k == 16 {
        BidiClassKind::PDI
    } else if k == 17 {
        BidiClassKind::R
    } else if k == 18 {
        BidiClassKind::RLE
    } else if k == 19 {
        BidiClassKind::RLI
    } else if k == 20 {
        BidiClassKind::RLO
    } else if k == 21 {
        BidiClassKind::S
    } else {
        BidiClassKind::WS
    }
}

/// The bidirectional class of `c`.
pub open spec fn bidi_class_of(c: char) -> BidiClassKind {
    class_kind(bidi_class_code(c))
}

/// The bidirectional class of `c`.
pub fn char_bidi_class(c: char) -> (k: BidiClassKind)
    ensures
        k == bidi_class_of(c),
{
    let n = char_bidi_class_code(c);
    if n == 0 {
        BidiClassKind::AL
    } else if n == 1 {
        BidiClassKind::AN
    } else if n == 2 {
        BidiClassKind::B
    } else if n == 3 {
        BidiClassKind::BN
    } else if n == 4 {
        BidiClassKind::CS
    } else if n == 5 {
        BidiClassKind::EN
    } else if n == 6 {
        BidiClassKind::ES
    } else if n == 7 {
        BidiClassKind::ET
    } else if n == 8 {
        BidiClassKind::FSI
    } else if n == 9 {
        BidiClassKind::L
    } else if n == 10 {
        BidiClassKind::LRE
    } else if n == 11 {
        BidiClassKind::LRI
    } else if n == 12 {
        BidiClassKind::LRO
    } else if n == 13 {
        BidiClassKind::NSM
    } else if n == 14 {
        BidiClassKind::ON
    } else if n == 15 {
        BidiClassKind::PDF
    } else if n == 16 {
        BidiClassKind::PDI
    } else if n == 17 {
        BidiClassKind::R
    } else if n == 18 {
        BidiClassKind::RLE
    } else if n == 19 {
        BidiClassKind::RLI
    } else if n == 20 {
        BidiClassKind::RLO
    } else if n == 21 {
        BidiClassKind::S
    } else {
        BidiClassKind::WS
    }
}

/// True when `c` lies in a right-to-left block (Hebrew through Arabic
/// Extended, the Hebrew and Arabic presentation forms) or is strongly
/// right-to-left.
pub open spec fn is_rtl_char(c: char) -> bool {
    let u = c as u32;
    ||| 0x0590 <= u <= 0x08FF
    ||| 0xFB1D <= u <= 0xFDFF
    ||| 0xFE70 <= u <= 0xFEFF
    ||| bidi_class_of(c) == BidiClassKind::R
    ||| bidi_class_of(c) == BidiClassKind::AL
}

/// True when `text` needs the bidirectional algorithm: some character of it
/// is right-to-left.
pub fn text_needs_bidi(text: &str) -> (b: bool)
    ensures
        b == exists|i: int| 0 <= i < text@.len() && #[trigger] is_rtl_char(text@[i]),
{
    broadcast use vstd::string::axiom_spec_iter;

    for ch in it: text.chars()
        invariant
            it.seq() == text@,
            forall|j: int| 0 <= j < it.index() ==> !#[trigger] is_rtl_char(text@[j]),
    {
        assert(ch == text@[it.index() as int]);
        let u = ch as u32;
        if (0x0590 <= u && u <= 0x08FF) || (0xFB1D <= u && u <= 0xFDFF) || (0xFE70 <= u && u
            <= 0xFEFF) {
            assert(is_rtl_char(text@[it.index() as int]));
            return true;
        }
        let k = char_bidi_class(ch);
        if k == BidiClassKind::R || k == BidiClassKind::AL {
            assert(is_rtl_char(text@[it.index() as int]));
            return true;
        }
    }
    false
}

/// The most cached shaped runs.
pub const SHAPE_CACHE_MAX_ENTRIES: usize = 64;

/// The most glyphs held by all cached shaped runs together.
pub const SHAPE_CACHE_MAX_GLYPHS: usize = 32768;

/// What a shaped run is cached under.
pub struct ShapeCacheKey {
    pub font_handle: u64,
    /// The bits of the font size.
    pub size_bits: u64,
    pub bidi_mode: u32,
    pub text: String,
}

/// The mathematical value of a cache key.
pub open spec fn key_view(k: ShapeCacheKey) -> (u64, u64, u32, Seq<char>) {
    (k.font_handle, k.size_bits, k.bidi_mode, k.text@)
}

/// True when two keys are equal.
pub fn key_eq(a: &ShapeCacheKey, b: &ShapeCacheKey) -> (r: bool)
    ensures
        r == (key_view(*a) == key_view(*b)),
{
    a.font_handle == b.font_handle && a.size_bits == b.size_bits && a.bidi_mode == b.bidi_mode
        && crate::wire::str_eq(a.text.as_str(), b.text.as_str())
}

/// A cached shaped run and the number of glyphs it holds.
pub struct CacheEntry<V> {
    pub key: ShapeCacheKey,
    pub value: V,
    pub glyphs: usize,
}

/// The glyphs of all entries.
pub open spec fn glyph_sum<V>(s: Seq<CacheEntry<V>>) -> int
    decreases s.len(),
{
    if s.len() == 0 {
        0
    } else {
        s[0].glyphs + glyph_sum(s.drop_first())
    }
}

/// No key occurs twice.
pub open spec fn keys_distinct<V>(s: Seq<CacheEntry<V>>) -> bool {
    forall|i: int, j: int|
        0 <= i < j < s.len() ==> key_view(#[trigger] s[i].key) != key_view(#[trigger] s[j].key)
}

/// The index of the entry with key `k`, if any.
pub open spec fn find_key<V>(s: Seq<CacheEntry<V>>, k: (u64, u64, u32, Seq<char>)) -> Option<int>
    decreases s.len(),
{
    if s.len() == 0 {
        None
    } else if key_view(s.last().key) == k {
        Some(s.len() - 1)
    } else {
        find_key(s.drop_last(), k)
    }
}

/// The entries without the one of key `k`.
pub open spec fn without_key<V>(s: Seq<CacheEntry<V>>, k: (u64, u64, u32, Seq<char>)) -> Seq<
    CacheEntry<V>,
> {
    match find_key(s, k) {
        Some(i) => s.remove(i),
        None => s,
    }
}

/// Drops the oldest entries while there are too many or they hold too many
/// glyphs.
pub open spec fn evict<V>(s: Seq<CacheEntry<V>>) -> Seq<CacheEntry<V>>
    decreases s.len(),
{
    if s.len() > 0 && (s.len() > SHAPE_CACHE_MAX_ENTRIES || glyph_sum(s) > SHAPE_CACHE_MAX_GLYPHS) {
        evict(s.drop_first())
    } else {
        s
    }
}

/// The entries whose key names another font than `font`.
pub open spec fn without_font<V>(s: Seq<CacheEntry<V>>, font: u64) -> Seq<CacheEntry<V>>
    decreases s.len(),
{
    if s.len() == 0 {
        s
    } else if s[0].key.font_handle == font {
        without_font(s.drop_first(), font)
    } else {
        seq![s[0]] + without_font(s.drop_first(), font)
    }
}

proof fn lemma_glyph_sum_push<V>(s: Seq<CacheEntry<V>>, e: CacheEntry<V>)
    ensures
        glyph_sum(s.push(e)) == glyph_sum(s) + e.glyphs,
    decreases s.len(),
{
    if s.len() > 0 {
        assert(s.push(e).drop_first() =~= s.drop_first().push(e));
        lemma_glyph_sum_push(s.drop_first(), e);
    } else {
        assert(s.push(e).drop_first() =~= Seq::<CacheEntry<V>>::empty());
        assert(glyph_sum(Seq::<CacheEntry<V>>::empty()) == 0);
        assert(s.push(e)[0] == e);
    }
}

proof fn lemma_glyph_sum_remove<V>(s: Seq<CacheEntry<V>>, i: int)
    requires
        0 <= i < s.len(),
    ensures
        glyph_sum(s.remove(i)) == glyph_sum(s) - s[i].glyphs,
    decreases s.len(),
{
    if i > 0 {
        assert(s.remove(i).drop_first() =~= s.drop_first().remove(i - 1));
        lemma_glyph_sum_remove(s.drop_first(), i - 1);
    } else {
        assert(s.remove(0) =~= s.drop_first());
    }
}

proof fn lemma_glyph_sum_nonneg<V>(s: Seq<CacheEntry<V>>)
    ensures
        glyph_sum(s) >= 0,
        forall|i: int| 0 <= i < s.len() ==> #[trigger] s[i].glyphs <= glyph_sum(s),
    decreases s.len(),
{
    if s.len() > 0 {
        lemma_glyph_sum_nonneg(s.drop_first());
        assert forall|i: int| 0 <= i < s.len() implies #[trigger] s[i].glyphs <= glyph_sum(s) by {
            if i > 0 {
                assert(s[i] == s.drop_first()[i - 1]);
            }
        }
    }
}

proof fn lemma_distinct_remove<V>(s: Seq<CacheEntry<V>>, i: int)
    requires
        keys_distinct(s),
        0 <= i < s.len(),
    ensures
        keys_distinct(s.remove(i)),
{
    let r = s.remove(i);
    assert forall|a: int, b: int| 0 <= a < b < r.len() implies key_view(#[trigger] r[a].key)
        != key_view(#[trigger] r[b].key) by {
        let a2 = if a < i { a } else { a + 1 };
        let b2 = if b < i { b } else { b + 1 };
        assert(r[a] == s[a2]);
        assert(r[b] == s[b2]);
    }
}

proof fn lemma_find_key<V>(s: Seq<CacheEntry<V>>, k: (u64, u64, u32, Seq<char>))
    ensures
        find_key(s, k) matches Some(i) ==> 0 <= i < s.len() && key_view(s[i].key) == k,
        find_key(s, k) is None ==> forall|j: int| 0 <= j < s.len() ==> key_view(#[trigger] s[j].key)
            != k,
    decreases s.len(),
{
    if s.len() > 0 {
        lemma_find_key(s.drop_last(), k);
        if key_view(s.last().key) != k {
            assert forall|j: int| 0 <= j < s.len() - 1 implies #[trigger] s[j] == s.drop_last()[j] by {}
        }
    }
}

proof fn lemma_find_key_unique<V>(s: Seq<CacheEntry<V>>, k: (u64, u64, u32, Seq<char>), i: int)
    requires
        keys_distinct(s),
        0 <= i < s.len(),
        key_view(s[i].key) == k,
    ensures
        find_key(s, k) == Some(i),
{
    lemma_find_key(s, k);
    match find_key(s, k) {
        Some(j) => {
            if j != i {
                if j < i {
                    assert(key_view(s[j].key) != key_view(s[i].key));
                } else {
                    assert(key_view(s[i].key) != key_view(s[j].key));
                }
            }
        },
        None => {
            assert(key_view(s[i].key) != k);
        },
    }
}

proof fn lemma_evict_bounds<V>(s: Seq<CacheEntry<V>>)
    ensures
        evict(s).len() <= SHAPE_CACHE_MAX_ENTRIES,
        glyph_sum(evict(s)) <= SHAPE_CACHE_MAX_GLYPHS,
    decreases s.len(),
{
    if s.len() > 0 && (s.len() > SHAPE_CACHE_MAX_ENTRIES || glyph_sum(s) > SHAPE_CACHE_MAX_GLYPHS) {
        lemma_evict_bounds(s.drop_first());
    }
}

/// Shaped runs cached by key, oldest use first, within the bounds of
/// `SHAPE_CACHE_MAX_ENTRIES` entries and `SHAPE_CACHE_MAX_GLYPHS` glyphs.
pub struct ShapeCache<V> {
    entries: Vec<CacheEntry<V>>,
    total_glyphs: usize,
}

impl<V> ShapeCache<V> {
    /// The cached entries, oldest use first.
    pub closed spec fn entries(&self) -> Seq<CacheEntry<V>> {
        self.entries@
    }

    /// The keys are distinct, the glyph total is kept, and the bounds hold.
    pub closed spec fn wf(&self) -> bool {
        &&& keys_distinct(self.entries@)
        &&& self.total_glyphs == glyph_sum(self.entries@)
        &&& self.entries@.len() <= SHAPE_CACHE_MAX_ENTRIES
        &&& self.total_glyphs <= SHAPE_CACHE_MAX_GLYPHS
    }

    /// An empty cache.
    pub fn new() -> (c: Self)
        ensures
            c.wf(),
            c.entries() == Seq::<CacheEntry<V>>::empty(),
    {
        ShapeCache { entries: Vec::new(), total_glyphs: 0 }
    }

    /// The number of cached entries.
    pub fn len(&self) -> (n: usize)
        ensures
            n == self.entries().len(),
    {
        self.entries.len()
    }

    /// The glyphs held by all cached entries.
    pub fn total_glyphs(&self) -> (n: usize)
        requires
            self.wf(),
        ensures
            n == glyph_sum(self.entries()),
    {
        self.total_glyphs
    }

    fn position(&self, key: &ShapeCacheKey) -> (r: Option<usize>)
        requires
            self.wf(),
        ensures
            r matches Some(i) ==> find_key(self.entries(), key_view(*key)) == Some(i as int),
            r is None ==> find_key(self.entries(), key_view(*key)) is None,
    {
        let mut i: usize = 0;
        while i < self.entries.len()
            invariant
                self.wf(),
                i <= self.entries@.len(),
                forall|j: int| 0 <= j < i ==> key_view(#[trigger] self.entries@[j].key) != key_view(
                    *key,
                ),
            decreases self.entries@.len() - i,
        {
            if key_eq(&self.entries[i].key, key) {
                proof {
                    lemma_find_key_unique(self.entries@, key_view(*key), i as int);
                }
                return Some(i);
            }
            i += 1;
        }
        proof {
            lemma_find_key(self.entries@, key_view(*key));
        }
        None
    }

    /// The value cached under `key`, which becomes the most recently used
    /// entry.
    pub fn get(&mut self, key: &ShapeCacheKey) -> (r: Option<&V>)
        requires
            old(self).wf(),
        ensures
            final(self).wf(),
            match find_key(old(self).entries(), key_view(*key)) {
                Some(i) => {
                    &&& final(self).entries() == old(self).entries().remove(i).push(
                        old(self).entries()[i],
                    )
                    &&& r matches Some(v) && *v == old(self).entries()[i].value
                },
                None => r is None && final(self).entries() == old(self).entries(),
            },
    {
        match self.position(key) {
            Some(i) => {
                let ghost s = self.entries@;
                proof {
                    lemma_find_key(s, key_view(*key));
                    lemma_distinct_remove(s, i as int);
                    lemma_glyph_sum_remove(s, i as int);
                    lemma_glyph_sum_push(s.remove(i as int), s[i as int]);
                }
                let e = self.entries.remove(i);
                self.entries.push(e);
                proof {
                    let t = self.entries@;
                    assert forall|a: int, b: int| 0 <= a < b < t.len() implies key_view(
                        #[trigger] t[a].key,
                    ) != key_view(#[trigger] t[b].key) by {
                        if b == t.len() - 1 {
                            let a2 = if a < i { a } else { a + 1 };
                            assert(t[a] == s[a2]);
                            if a2 < i {
                                assert(key_view(s[a2].key) != key_view(s[i as int].key));
                            } else {
                                assert(key_view(s[i as int].key) != key_view(s[a2].key));
                            }
                        } else {
                            assert(t[a] == s.remove(i as int)[a]);
                            assert(t[b] == s.remove(i as int)[b]);
                        }
                    }
                }
                let n = self.entries.len();
                Some(&self.entries[n - 1].value)
            },
            None => None,
        }
    }

    /// Caches `value`, which holds `glyphs` glyphs, under `key` as the most
    /// recently used entry, replacing any entry of that key, then drops the
    /// oldest entries while the bounds are exceeded.
    pub fn insert(&mut self, key: ShapeCacheKey, value: V, glyphs: usize)
        requires
            old(self).wf(),
            glyphs + SHAPE_CACHE_MAX_GLYPHS <= usize::MAX,
        ensures
            final(self).wf(),
            final(self).entries() == evict(
                without_key(old(self).entries(), key_view(key)).push(
                    CacheEntry { key, value, glyphs },
                ),
            ),
    {
        let ghost k = key_view(key);
        match self.position(&key) {
            Some(i) => {
                let ghost s = self.entries@;
                proof {
                    lemma_find_key(s, k);
                    lemma_distinct_remove(s, i as int);
                    lemma_glyph_sum_remove(s, i as int);
                    lemma_glyph_sum_nonneg(s);
                }
                let old_e = self.entries.remove(i);
                self.total_glyphs = self.total_glyphs - old_e.glyphs;
            },
            None => {
                proof {
                    lemma_find_key(self.entries@, k);
                }
            },
        }
        let ghost base = self.entries@;
        assert(base == without_key(old(self).entries(), k));
        assert(forall|j: int| 0 <= j < base.len() ==> key_view(#[trigger] base[j].key) != k) by {
            lemma_find_key(old(self).entries(), k);
            assert forall|j: int| 0 <= j < base.len() implies key_view(#[trigger] base[j].key) != k by {
                match find_key(old(self).entries(), k) {
                    Some(i) => {
                        let s = old(self).entries();
                        let j2 = if j < i { j } else { j + 1 };
                        assert(base[j] == s[j2]);
                        if j2 < i {
                            assert(key_view(s[j2].key) != key_view(s[i].key));
                        } else {
                            assert(key_view(s[i].key) != key_view(s[j2].key));
                        }
                    },
                    None => {},
                }
            }
        }
        let ghost entry = CacheEntry { key, value, glyphs };
        self.entries.push(CacheEntry { key, value, glyphs });
        self.total_glyphs = self.total_glyphs + glyphs;
        proof {
            lemma_glyph_sum_push(base, entry);
            let t = self.entries@;
            assert(t == base.push(entry));
            assert forall|a: int, b: int| 0 <= a < b < t.len() implies key_view(
                #[trigger] t[a].key,
            ) != key_view(#[trigger] t[b].key) by {
                if b == t.len() - 1 {
                    assert(t[a] == base[a]);
                } else {
                    assert(t[a] == base[a]);
                    assert(t[b] == base[b]);
                }
            }
        }
        while self.entries.len() > 0 && (self.entries.len() > SHAPE_CACHE_MAX_ENTRIES
            || self.total_glyphs > SHAPE_CACHE_MAX_GLYPHS)
            invariant
                keys_distinct(self.entries@),
                self.total_glyphs == glyph_sum(self.entries@),
                evict(self.entries@) == evict(base.push(entry)),
            decreases self.entries@.len(),
        {
            let ghost s = self.entries@;
            proof {
                lemma_distinct_remove(s, 0);
                lemma_glyph_sum_remove(s, 0);
                lemma_glyph_sum_nonneg(s);
                assert(s.remove(0) =~= s.drop_first());
            }
            let first = self.entries.remove(0);
            self.total_glyphs = self.total_glyphs - first.glyphs;
        }
        proof {
            lemma_glyph_sum_nonneg(self.entries@);
        }
    }

    /// Drops every entry shaped with font `font_handle`.
    pub fn invalidate_font(&mut self, font_handle: u64)
        requires
            old(self).wf(),
        ensures
            final(self).wf(),
            final(self).entries() == without_font(old(self).entries(), font_handle),
    {
        let mut rest: Vec<CacheEntry<V>> = Vec::new();
        std::mem::swap(&mut rest, &mut self.entries);
        let ghost all = rest@;
        let mut kept: Vec<CacheEntry<V>> = Vec::new();
        let mut total: usize = self.total_glyphs;
        proof {
            assert(kept@ + rest@ =~= all);
        }
        while rest.len() > 0
            invariant
                keys_distinct(kept@ + rest@),
                total == glyph_sum(kept@ + rest@),
                kept@.len() + rest@.len() <= SHAPE_CACHE_MAX_ENTRIES,
                total <= SHAPE_CACHE_MAX_GLYPHS,
                without_font(all, font_handle) == kept@ + without_font(rest@, font_handle),
            decreases rest@.len(),
        {
            let ghost s = kept@ + rest@;
            let ghost r = rest@;
            let e = rest.remove(0);
            proof {
                assert(r.drop_first() =~= rest@);
            }
            if e.key.font_handle == font_handle {
                proof {
                    let i = kept@.len() as int;
                    lemma_distinct_remove(s, i);
                    lemma_glyph_sum_remove(s, i);
                    lemma_glyph_sum_nonneg(s);
                    assert(s.remove(i) =~= kept@ + rest@);
                    assert(s[i] == e);
                }
                total = total - e.glyphs;
            } else {
                kept.push(e);
                proof {
                    assert(kept@ + rest@ =~= s);
                    assert(without_font(all, font_handle) =~= kept@ + without_font(
                        rest@,
                        font_handle,
                    ));
                }
            }
        }
        proof {
            assert(kept@ + rest@ =~= kept@);
            assert(without_font(rest@, font_handle) =~= rest@);
        }
        self.entries = kept;
        self.total_glyphs = total;
    }
}

proof fn lemma_evict_keeps_last<V>(t: Seq<CacheEntry<V>>)
    requires
        t.len() > 0,
        t.last().glyphs <= SHAPE_CACHE_MAX_GLYPHS,
    ensures
        evict(t).len() > 0,
        evict(t).last() == t.last(),
    decreases t.len(),
{
    if t.len() > SHAPE_CACHE_MAX_ENTRIES || glyph_sum(t) > SHAPE_CACHE_MAX_GLYPHS {
        if t.len() == 1 {
            assert(t.drop_first() =~= Seq::<CacheEntry<V>>::empty());
            assert(glyph_sum(Seq::<CacheEntry<V>>::empty()) == 0);
            assert(glyph_sum(t) == t[0].glyphs);
        } else {
            assert(t.drop_first().last() == t.last());
            lemma_evict_keeps_last(t.drop_first());
        }
    }
}

/// A run just cached, holding at most `SHAPE_CACHE_MAX_GLYPHS` glyphs, is
/// the most recently used entry afterwards, so the next lookup of its key
/// finds it.
pub proof fn law_insert_then_get<V>(s: Seq<CacheEntry<V>>, e: CacheEntry<V>)
    requires
        e.glyphs <= SHAPE_CACHE_MAX_GLYPHS,
    ensures
        ({
            let t = evict(without_key(s, key_view(e.key)).push(e));
            &&& t.len() > 0
            &&& t.last() == e
            &&& find_key(t, key_view(e.key)) == Some(t.len() - 1)
        }),
{
    let u = without_key(s, key_view(e.key)).push(e);
    lemma_evict_keeps_last(u);
}

/// The cache bounds hold after any insertion.
pub proof fn law_insert_within_bounds<V>(s: Seq<CacheEntry<V>>, e: CacheEntry<V>)
    ensures
        evict(without_key(s, key_view(e.key)).push(e)).len() <= SHAPE_CACHE_MAX_ENTRIES,
        glyph_sum(evict(without_key(s, key_view(e.key)).push(e))) <= SHAPE_CACHE_MAX_GLYPHS,
{
    lemma_evict_bounds(without_key(s, key_view(e.key)).push(e));
}

proof fn lemma_evict_suffix<V>(s: Seq<CacheEntry<V>>)
    ensures
        exists|k: int| 0 <= k <= s.len() && #[trigger] s.subrange(k, s.len() as int) == evict(s),
    decreases s.len(),
{
    if s.len() > 0 && (s.len() > SHAPE_CACHE_MAX_ENTRIES || glyph_sum(s) > SHAPE_CACHE_MAX_GLYPHS) {
        lemma_evict_suffix(s.drop_first());
        let k = choose|k: int|
            0 <= k <= s.drop_first().len() && #[trigger] s.drop_first().subrange(
                k,
                s.drop_first().len() as int,
            ) == evict(s.drop_first());
        assert(s.subrange(k + 1, s.len() as int) =~= s.drop_first().subrange(
            k,
            s.drop_first().len() as int,
        ));
    } else {
        assert(s.subrange(0, s.len() as int) =~= s);
    }
}

proof fn lemma_evict_oversize_last<V>(t: Seq<CacheEntry<V>>)
    requires
        t.len() > 0,
        t.last().glyphs > SHAPE_CACHE_MAX_GLYPHS,
    ensures
        evict(t).len() == 0,
    decreases t.len(),
{
    lemma_glyph_sum_nonneg(t);
    assert(t[t.len() - 1].glyphs <= glyph_sum(t));
    assert(glyph_sum(t) > SHAPE_CACHE_MAX_GLYPHS);
    assert(evict(t) == evict(t.drop_first()));
    if t.len() > 1 {
        assert(t.drop_first().last() == t.last());
        lemma_evict_oversize_last(t.drop_first());
    } else {
        assert(t.drop_first().len() == 0);
        assert(evict(t.drop_first()) == t.drop_first());
    }
}

/// The cache drops its least recently used entries first: what an
/// insertion keeps is the newest part of the entries, the inserted entry
/// last, with the others in their order of use.
pub proof fn law_insert_evicts_oldest<V>(s: Seq<CacheEntry<V>>, e: CacheEntry<V>)
    ensures
        ({
            let u = without_key(s, key_view(e.key)).push(e);
            exists|k: int| 0 <= k <= u.len() && #[trigger] u.subrange(k, u.len() as int) == evict(u)
        }),
{
    lemma_evict_suffix(without_key(s, key_view(e.key)).push(e));
}

/// A run with more glyphs than the cache may hold is not kept: after its
/// insertion the cache is empty, so its key is not found.
pub proof fn law_oversize_not_cached<V>(s: Seq<CacheEntry<V>>, e: CacheEntry<V>)
    requires
        e.glyphs > SHAPE_CACHE_MAX_GLYPHS,
    ensures
        evict(without_key(s, key_view(e.key)).push(e)).len() == 0,
        find_key(evict(without_key(s, key_view(e.key)).push(e)), key_view(e.key)) is None,
{
    lemma_evict_oversize_last(without_key(s, key_view(e.key)).push(e));
    let t = evict(without_key(s, key_view(e.key)).push(e));
    lemma_find_key(t, key_view(e.key));
}


/// A character that resolved to no font (whitespace, a control, or one no
/// font of the chain has) stays in the run of the character before it: no
/// run starts at it unless it is the first character. Every run after the
/// first starts at a character that resolved to a font, and that font is
/// the run's font.
pub proof fn law_unresolved_stays_in_run(fonts: Seq<Option<u64>>, offsets: Seq<usize>, base: u64, len: usize)
    requires
        fonts.len() == offsets.len(),
        forall|i: int, j: int| 0 <= i < j < offsets.len() ==> offsets[i] < offsets[j],
    ensures
        ({
            let r = font_runs(fonts, offsets, base, len);
            &&& forall|m: int, j: int|
                0 < m < fonts.len() && fonts[m] is None && 0 <= j < r.len() ==> #[trigger] r[j].start
                    != #[trigger] offsets[m]
            &&& forall|m: int, j: int|
                0 <= m < fonts.len() && 0 < j < r.len() && #[trigger] offsets[m] == (
                #[trigger] r[j]).start ==> 0 < m && fonts[m] == Some(r[j].font)
        }),
{
    let n = fonts.len() as int;
    let st = run_starts(fonts, base, n);
    let r = font_runs(fonts, offsets, base, len);
    lemma_run_starts_props(fonts, base, n);
    assert(r.len() == st.len());
    assert forall|j: int| 0 <= j < st.len() && st[j] > 0 implies (#[trigger] fonts[st[j]]) == Some(
        char_font(fonts, base, st[j]),
    ) by {
        assert(is_run_start(fonts, base, st[j]));
        if fonts[st[j]] is None {
            assert(char_font(fonts, base, st[j]) == char_font(fonts, base, st[j] - 1));
        }
    }
    assert forall|m: int, j: int|
        0 < m < fonts.len() && fonts[m] is None && 0 <= j < r.len() implies #[trigger] r[j].start
        != #[trigger] offsets[m] by {
        assert(r[j].start == offsets[st[j]]);
        if st[j] != m {
            if st[j] < m {
                assert(offsets[st[j]] < offsets[m]);
            } else {
                assert(offsets[m] < offsets[st[j]]);
            }
        } else {
            assert(fonts[st[j]] == Some(char_font(fonts, base, st[j])));
        }
    }
    assert forall|m: int, j: int|
        0 <= m < fonts.len() && 0 < j < r.len() && #[trigger] offsets[m] == (
        #[trigger] r[j]).start implies 0 < m && fonts[m] == Some(r[j].font) by {
        assert(st[0] < st[j]);
        assert(0 <= st[0]);
        assert(r[j].start == offsets[st[j]]);
        if st[j] < m {
            assert(offsets[st[j]] < offsets[m]);
        } else if m < st[j] {
            assert(offsets[m] < offsets[st[j]]);
        }
        assert(fonts[st[j]] == Some(char_font(fonts, base, st[j])));
    }
}


/// Two cache keys are the same key exactly when they agree in all four
/// fields: font, size, bidirectional mode and text. Runs shaped under
/// another mode, size, font or text are other entries.
pub proof fn law_key_fields(a: ShapeCacheKey, b: ShapeCacheKey)
    ensures
        key_view(a) == key_view(b) <==> (a.font_handle == b.font_handle && a.size_bits
            == b.size_bits && a.bidi_mode == b.bidi_mode && a.text@ == b.text@),
{
}

/// A lookup finds only an entry whose key agrees with the asked key in all
/// four fields; when it finds none, every entry differs from it in some
/// field.
pub proof fn law_lookup_matches_all_fields<V>(s: Seq<CacheEntry<V>>, k: ShapeCacheKey)
    ensures
        find_key(s, key_view(k)) matches Some(i) ==> {
            &&& 0 <= i < s.len()
            &&& s[i].key.font_handle == k.font_handle
            &&& s[i].key.size_bits == k.size_bits
            &&& s[i].key.bidi_mode == k.bidi_mode
            &&& s[i].key.text@ == k.text@
        },
        find_key(s, key_view(k)) is None ==> forall|j: int|
            0 <= j < s.len() ==> !(#[trigger] s[j].key.font_handle == k.font_handle
                && s[j].key.size_bits == k.size_bits && s[j].key.bidi_mode == k.bidi_mode
                && s[j].key.text@ == k.text@),
{
    lemma_find_key(s, key_view(k));
    if find_key(s, key_view(k)) is None {
        assert forall|j: int| 0 <= j < s.len() implies !(#[trigger] s[j].key.font_handle
            == k.font_handle && s[j].key.size_bits == k.size_bits && s[j].key.bidi_mode
            == k.bidi_mode && s[j].key.text@ == k.text@) by {
            assert(key_view(s[j].key) != key_view(k));
        }
    }
}

/// Shaping settings shared by all shaping calls.
pub struct ShaperSettings {
    /// 0 runs the bidirectional algorithm when the text needs it, 1 forces
    /// left-to-right, any other value forces right-to-left.
    pub bidi_mode: u32,
}

impl ShaperSettings {
    /// Automatic direction.
    pub fn new() -> (s: Self)
        ensures
            s.bidi_mode == 0,
    {
        ShaperSettings { bidi_mode: 0 }
    }
}

/// Sets the bidirectional mode.
pub fn set_bidi_mode(s: &mut ShaperSettings, mode: u32)
    ensures
        final(s).bidi_mode == mode,
{
    s.bidi_mode = mode;
}

/// How the text is cut into directional runs before shaping.
#[derive(Debug, Clone, Copy, PartialEq, Eq, Structural)]
pub enum RunPlan {
    /// Run the bidirectional algorithm over the text.
    Bidi,
    /// One run over the whole text, right-to-left or not.
    Single { rtl: bool },
}

/// The run plan for `text` under bidirectional mode `bidi_mode`.
pub fn plan_runs(bidi_mode: u32, text: &str) -> (p: RunPlan)
    ensures
        bidi_mode == 0 && (exists|i: int| 0 <= i < text@.len() && #[trigger] is_rtl_char(text@[i]))
            ==> p == RunPlan::Bidi,
        bidi_mode == 0 && !(exists|i: int| 0 <= i < text@.len() && #[trigger] is_rtl_char(
            text@[i],
        )) ==> p == (RunPlan::Single { rtl: false }),
        bidi_mode != 0 ==> p == (RunPlan::Single { rtl: bidi_mode == 2 }),
{
    if bidi_mode == 0 {
        if text_needs_bidi(text) {
            RunPlan::Bidi
        } else {
            RunPlan::Single { rtl: false }
        }
    } else {
        RunPlan::Single { rtl: bidi_mode == 2 }
    }
}

/// The script a right-to-left run is shaped with.
#[derive(Debug, Clone, Copy, PartialEq, Eq, Structural)]
pub enum RtlScript {
    Arabic,
    Hebrew,
    /// Neither: the shaper guesses the script.
    Other,
}

/// True when `c` is in an Arabic block or in the Arabic presentation forms.
pub open spec fn is_arabic_char(c: char) -> bool {
    let u = c as u32;
    ||| 0x0600 <= u <= 0x06FF
    ||| 0x0750 <= u <= 0x077F
    ||| 0x08A0 <= u <= 0x08FF
    ||| 0xFB50 <= u <= 0xFDFF
    ||| 0xFE70 <= u <= 0xFEFF
}

/// True when `c` is in the Hebrew block.
pub open spec fn is_hebrew_char(c: char) -> bool {
    0x0590 <= (c as u32) <= 0x05FF
}

/// The script of the first Arabic or Hebrew character from `i` on.
pub open spec fn first_script(s: Seq<char>, i: int) -> RtlScript
    decreases s.len() - i,
{
    if i < 0 || i >= s.len() {
        RtlScript::Other
    } else if is_arabic_char(s[i]) {
        RtlScript::Arabic
    } else if is_hebrew_char(s[i]) {
        RtlScript::Hebrew
    } else {
        first_script(s, i + 1)
    }
}

/// The script of a right-to-left run: that of its first Arabic or Hebrew
/// character.
pub fn rtl_script(text: &str) -> (r: RtlScript)
    ensures
        r == first_script(text@, 0),
{
    broadcast use vstd::string::axiom_spec_iter;

    for ch in it: text.chars()
        invariant
            it.seq() == text@,
            first_script(text@, 0) == first_script(text@, it.index() as int),
    {
        assert(ch == text@[it.index() as int]);
        let u = ch as u32;
        if (0x0600 <= u && u <= 0x06FF) || (0x0750 <= u && u <= 0x077F) || (0x08A0 <= u && u
            <= 0x08FF) || (0xFB50 <= u && u <= 0xFDFF) || (0xFE70 <= u && u <= 0xFEFF) {
            return RtlScript::Arabic;
        }
        if 0x0590 <= u && u <= 0x05FF {
            return RtlScript::Hebrew;
        }
    }
    RtlScript::Other
}

/// A piece of a run shaped with one font: bytes `start..end` of the run.
#[derive(Debug, Clone, Copy, PartialEq, Eq, Structural)]
pub struct FontRun {
    pub font: u64,
    pub start: usize,
    pub end: usize,
}

/// The font character `i` is shaped with: the font it resolved to, or else
/// the font of the character before it (`base` before the first).
pub open spec fn char_font(fonts: Seq<Option<u64>>, base: u64, i: int) -> u64
    decreases i + 1,
{
    if i < 0 || i >= fonts.len() {
        base
    } else {
        match fonts[i] {
            Some(f) => f,
            None => char_font(fonts, base, i - 1),
        }
    }
}

/// The indices of the characters, among the first `k`, that begin a run:
/// the first character, and each whose font differs from the one before.
pub open spec fn run_starts(fonts: Seq<Option<u64>>, base: u64, k: int) -> Seq<int>
    decreases k,
{
    if k <= 0 {
        Seq::empty()
    } else if k == 1 || char_font(fonts, base, k - 1) != char_font(fonts, base, k - 2) {
        run_starts(fonts, base, k - 1).push(k - 1)
    } else {
        run_starts(fonts, base, k - 1)
    }
}

/// The runs of a text of `len` bytes whose characters begin at the byte
/// offsets `offsets`: one per run start, ending where the next begins.
pub open spec fn font_runs(fonts: Seq<Option<u64>>, offsets: Seq<usize>, base: u64, len: usize) -> Seq<
    FontRun,
> {
    let st = run_starts(fonts, base, fonts.len() as int);
    Seq::new(
        st.len(),
        |j: int|
            FontRun {
                font: char_font(fonts, base, st[j]),
                start: offsets[st[j]],
                end: if j + 1 < st.len() {
                    offsets[st[j + 1]]
                } else {
                    len
                },
            },
    )
}

/// Cuts a run into pieces of one font each. `offsets[i]` is the byte offset
/// of character `i` in the run of `len` bytes, and `fonts[i]` the font it
/// resolved to (`None` for whitespace, controls and characters no font of
/// the chain has: those stay with the font before them, `base` at the
/// start).
pub fn split_font_runs(fonts: &[Option<u64>], offsets: &[usize], base: u64, len: usize) -> (r: Vec<
    FontRun,
>)
    requires
        fonts@.len() == offsets@.len(),
    ensures
        r@ == font_runs(fonts@, offsets@, base, len),
{
    let n = fonts.len();
    let mut starts: Vec<usize> = Vec::new();
    let mut cur: u64 = base;
    let mut i: usize = 0;
    while i < n
        invariant
            n == fonts@.len(),
            n == offsets@.len(),
            i <= n,
            starts@.len() == run_starts(fonts@, base, i as int).len(),
            forall|j: int| 0 <= j < starts@.len() ==> #[trigger] starts@[j] as int == run_starts(
                fonts@,
                base,
                i as int,
            )[j],
            cur == char_font(fonts@, base, i - 1),
        decreases n - i,
    {
        let f = match fonts[i] {
            Some(f) => f,
            None => cur,
        };
        assert(f == char_font(fonts@, base, i as int));
        if i == 0 || f != cur {
            starts.push(i);
        }
        cur = f;
        i += 1;
    }
    let ghost st = run_starts(fonts@, base, n as int);
    assert forall|j: int| 0 <= j < st.len() implies 0 <= #[trigger] st[j] < n by {
        lemma_run_starts_range(fonts@, base, n as int, j);
    }
    let mut runs: Vec<FontRun> = Vec::new();
    let m = starts.len();
    let mut j: usize = 0;
    while j < m
        invariant
            m == starts@.len(),
            m == st.len(),
            st == run_starts(fonts@, base, n as int),
            n == fonts@.len(),
            n == offsets@.len(),
            forall|k: int| 0 <= k < m ==> #[trigger] starts@[k] as int == st[k],
            forall|k: int| 0 <= k < st.len() ==> 0 <= #[trigger] st[k] < n,
            j <= m,
            runs@.len() == j,
            forall|k: int| 0 <= k < j ==> #[trigger] runs@[k] == font_runs(fonts@, offsets@, base, len)[k],
        decreases m - j,
    {
        let s = starts[j];
        let end = if j + 1 < m { offsets[starts[j + 1]] } else { len };
        let font = char_font_exec(fonts, base, s);
        runs.push(FontRun { font, start: offsets[s], end });
        j += 1;
    }
    assert(runs@ =~= font_runs(fonts@, offsets@, base, len));
    runs
}

proof fn lemma_run_starts_range(fonts: Seq<Option<u64>>, base: u64, k: int, j: int)
    requires
        0 <= j < run_starts(fonts, base, k).len(),
    ensures
        0 <= run_starts(fonts, base, k)[j] < k,
    decreases k,
{
    if k > 0 {
        let prev = run_starts(fonts, base, k - 1);
        if j < prev.len() {
            lemma_run_starts_range(fonts, base, k - 1, j);
        }
    }
}

/// The font character `i` is shaped with.
fn char_font_exec(fonts: &[Option<u64>], base: u64, i: usize) -> (f: u64)
    requires
        i < fonts@.len(),
    ensures
        f == char_font(fonts@, base, i as int),
{
    let mut k: usize = i;
    loop
        invariant
            k <= i,
            i < fonts@.len(),
            char_font(fonts@, base, i as int) == char_font(fonts@, base, k as int),
        decreases k,
    {
        match fonts[k] {
            Some(f) => {
                return f;
            },
            None => {},
        }
        if k == 0 {
            assert(char_font(fonts@, base, -1) == base);
            return base;
        }
        k -= 1;
    }
}

/// Character `m` begins a run: it is the first, or its font differs from
/// the one before it.
pub open spec fn is_run_start(fonts: Seq<Option<u64>>, base: u64, m: int) -> bool {
    m == 0 || char_font(fonts, base, m) != char_font(fonts, base, m - 1)
}

proof fn lemma_run_starts_props(fonts: Seq<Option<u64>>, base: u64, k: int)
    requires
        0 <= k,
    ensures
        ({
            let st = run_starts(fonts, base, k);
            &&& forall|i: int, j: int| 0 <= i < j < st.len() ==> st[i] < st[j]
            &&& forall|i: int| 0 <= i < st.len() ==> 0 <= #[trigger] st[i] < k
            &&& forall|i: int| 0 <= i < st.len() ==> is_run_start(fonts, base, #[trigger] st[i])
            &&& forall|m: int|
                0 <= m < k && #[trigger] is_run_start(fonts, base, m) ==> exists|i: int|
                    0 <= i < st.len() && st[i] == m
        }),
    decreases k,
{
    if k > 0 {
        lemma_run_starts_props(fonts, base, k - 1);
        let prev = run_starts(fonts, base, k - 1);
        let st = run_starts(fonts, base, k);
        if k == 1 || char_font(fonts, base, k - 1) != char_font(fonts, base, k - 2) {
            assert(st == prev.push(k - 1));
            assert forall|m: int|
                0 <= m < k && #[trigger] is_run_start(fonts, base, m) implies exists|i: int|
                    0 <= i < st.len() && st[i] == m by {
                if m == k - 1 {
                    assert(st[prev.len() as int] == m);
                } else {
                    let i = choose|i: int| 0 <= i < prev.len() && prev[i] == m;
                    assert(st[i] == m);
                }
            }
        } else {
            assert(!is_run_start(fonts, base, k - 1));
        }
    }
}

proof fn lemma_same_font_between(fonts: Seq<Option<u64>>, base: u64, a: int, c: int)
    requires
        0 <= a < c,
        forall|m: int| a < m < c ==> !#[trigger] is_run_start(fonts, base, m),
    ensures
        char_font(fonts, base, c - 1) == char_font(fonts, base, a),
    decreases c - a,
{
    if c - 1 > a {
        lemma_same_font_between(fonts, base, a, c - 1);
        assert(!is_run_start(fonts, base, c - 1));
    }
}

/// The pieces of a run follow one another without gap, from the first
/// character to the end of the run, and two neighbouring pieces never have
/// the same font.
pub proof fn law_font_runs_alternate(fonts: Seq<Option<u64>>, offsets: Seq<usize>, base: u64, len: usize)
    requires
        fonts.len() == offsets.len(),
    ensures
        ({
            let r = font_runs(fonts, offsets, base, len);
            &&& forall|j: int|
                0 <= j < r.len() - 1 ==> (#[trigger] r[j]).end == r[j + 1].start && r[j].font
                    != r[j + 1].font
            &&& fonts.len() > 0 ==> r.len() > 0 && r[0].start == offsets[0] && r.last().end == len
        }),
{
    let n = fonts.len() as int;
    let st = run_starts(fonts, base, n);
    let r = font_runs(fonts, offsets, base, len);
    lemma_run_starts_props(fonts, base, n);
    assert forall|j: int| 0 <= j < r.len() - 1 implies (#[trigger] r[j]).end == r[j + 1].start
        && r[j].font != r[j + 1].font by {
        let a = st[j];
        let c = st[j + 1];
        assert(a < c);
        assert forall|m: int| a < m < c implies !#[trigger] is_run_start(fonts, base, m) by {
            if is_run_start(fonts, base, m) {
                let i = choose|i: int| 0 <= i < st.len() && st[i] == m;
                if i <= j {
                    if i < j {
                        assert(st[i] < st[j]);
                    }
                } else if i >= j + 1 {
                    if i > j + 1 {
                        assert(st[j + 1] < st[i]);
                    }
                }
            }
        }
        lemma_same_font_between(fonts, base, a, c);
        assert(is_run_start(fonts, base, c));
    }
    if n > 0 {
        assert(is_run_start(fonts, base, 0));
        let i = choose|i: int| 0 <= i < st.len() && st[i] == 0;
        if i > 0 {
            assert(st[0] < st[i]);
        }
        assert(st[0] == 0);
    }
}

/// A shaped text registered under a handle, with its glyph count.
pub struct StoredShape<V> {
    pub value: V,
    pub glyphs: usize,
}

/// Shaped texts handed out under handles, from 1 up, never reused.
pub struct ShapeRegistry<V> {
    next_handle: u64,
    shapes: HashMap<u64, StoredShape<V>>,
}

impl<V> ShapeRegistry<V> {
    /// The registered shapes.
    pub closed spec fn shapes(&self) -> Map<u64, StoredShape<V>> {
        self.shapes@
    }

    /// The handle the next registered shape gets.
    pub closed spec fn next(&self) -> u64 {
        self.next_handle
    }

    /// Every handle is below the next one, and handles start at 1.
    pub closed spec fn wf(&self) -> bool {
        &&& self.next_handle >= 1
        &&& forall|h: u64| #[trigger] self.shapes@.contains_key(h) ==> 1 <= h < self.next_handle
    }

    /// No shape registered; the first handle is 1.
    pub fn new() -> (r: Self)
        ensures
            r.wf(),
            r.shapes() == Map::<u64, StoredShape<V>>::empty(),
            r.next() == 1,
    {
        ShapeRegistry { next_handle: 1, shapes: HashMap::new() }
    }

    /// Hands out the next handle, or `None` once 2^64 - 1 were handed out.
    fn alloc_shape_handle(&mut self) -> (r: Option<u64>)
        requires
            old(self).wf(),
        ensures
            final(self).shapes() == old(self).shapes(),
            old(self).next() == u64::MAX ==> r is None && final(self).next() == old(self).next(),
            old(self).next() < u64::MAX ==> r == Some(old(self).next()) && final(self).next()
                == old(self).next() + 1,
            r matches Some(h) ==> !old(self).shapes().contains_key(h) && 1 <= h,
            final(self).wf(),
    {
        if self.next_handle == u64::MAX {
            return None;
        }
        let h = self.next_handle;
        self.next_handle = h + 1;
        Some(h)
    }

    /// Registers a shaped text holding `glyphs` glyphs and gives its handle,
    /// or 0 (keeping nothing) once 2^64 - 1 handles were handed out.
    pub fn add_shape(&mut self, value: V, glyphs: usize) -> (h: u64)
        requires
            old(self).wf(),
        ensures
            final(self).wf(),
            h == 0 <==> old(self).next() == u64::MAX,
            h == 0 ==> final(self).shapes() == old(self).shapes() && final(self).next() == old(
                self,
            ).next(),
            h != 0 ==> {
                &&& h == old(self).next()
                &&& final(self).next() == h + 1
                &&& !old(self).shapes().contains_key(h)
                &&& final(self).shapes() == old(self).shapes().insert(
                    h,
                    StoredShape { value, glyphs },
                )
            },
    {
        let h = match self.alloc_shape_handle() {
            Some(h) => h,
            None => {
                return 0;
            },
        };
        self.shapes.insert(h, StoredShape { value, glyphs });
        h
    }

    /// Frees a shaped text; true when the handle was registered.
    pub fn free_shape(&mut self, handle: u64) -> (r: bool)
        requires
            old(self).wf(),
        ensures
            final(self).wf(),
            r == old(self).shapes().contains_key(handle),
            final(self).shapes() == old(self).shapes().remove(handle),
            final(self).next() == old(self).next(),
    {
        let r = self.shapes.remove(&handle);
        r.is_some()
    }

    /// The shaped text registered under `handle`.
    pub fn get_shape(&self, handle: u64) -> (r: Option<&V>)
        ensures
            r is Some <==> self.shapes().contains_key(handle),
            r matches Some(v) ==> *v == self.shapes()[handle].value,
    {
        match self.shapes.get(&handle) {
            Some(s) => Some(&s.value),
            None => None,
        }
    }

    /// The number of glyphs of the shaped text under `handle`, as a `u32`
    /// (truncated).
    pub fn get_shape_glyph_count(&self, handle: u64) -> (r: Option<u32>)
        ensures
            r == (if self.shapes().contains_key(handle) {
                Some(self.shapes()[handle].glyphs as u32)
            } else {
                None
            }),
    {
        match self.shapes.get(&handle) {
            Some(s) => Some(s.glyphs as u32),
            None => None,
        }
    }
}

/// Drops the cached shaped runs of a freed font.
pub fn invalidate_face_cache<V>(cache: &mut ShapeCache<V>, font_handle: u64)
    requires
        old(cache).wf(),
    ensures
        final(cache).wf(),
        final(cache).entries() == without_font(old(cache).entries(), font_handle),
{
    cache.invalidate_font(font_handle);
}

} // verus!
