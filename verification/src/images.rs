//! The image store: decoded images keyed by absolute URL, shared between layout
//! (the intrinsic size of replaced elements) and paint.
//!
//! Layout only reads intrinsic sizes. A version counter that every insertion bumps
//! feeds the reflow and paint stamps, so that a newly decoded image triggers
//! relayout and repaint. A vector image is stored as its source and rasterized at
//! the size it paints at.

use std::sync::Arc;

use vstd::prelude::*;

verus! {

/// A stable id for a decoded image within an [`ImageStore`].
#[derive(Clone, Copy, PartialEq, Eq, Hash, Debug, Structural)]
pub struct ImageId(pub u64);

/// The content of a stored image.
#[derive(Clone)]
pub enum ImageData {
    /// Decoded pixels: straight alpha RGBA8, row-major.
    Raster { rgba: Arc<Vec<u8>> },
    /// SVG markup, rasterized at the final device size.
    Vector { svg: Arc<Vec<u8>> },
}

/// A stored image: its intrinsic size in CSS px and its content.
#[derive(Clone)]
pub struct DecodedImage {
    pub id: ImageId,
    pub width: u32,
    pub height: u32,
    pub data: ImageData,
}

/// Decoded (and known-broken) images keyed by absolute URL.
pub struct ImageStore {
    by_url: Vec<(String, Arc<DecodedImage>)>,
    broken: Vec<String>,
    next_id: u64,
    version: u64,
}

/// What a store holds.
pub struct Images {
    /// The decoded image of each URL that has one.
    pub decoded: Map<Seq<char>, DecodedImage>,
    /// The URLs whose load or decode failed.
    pub broken: Set<Seq<char>>,
    /// The id that was assigned last.
    pub last_id: u64,
    /// How many insertions there were.
    pub version: u64,
}

/// A call that changes a store.
pub ghost enum StoreCall {
    Insert { url: Seq<char>, width: u32, height: u32, data: ImageData },
    Broken { url: Seq<char> },
}

impl StoreCall {
    /// The URL that the call is for.
    pub open spec fn url(self) -> Seq<char> {
        match self {
            StoreCall::Insert { url, .. } => url,
            StoreCall::Broken { url } => url,
        }
    }
}

impl Images {
    /// What an empty store holds.
    pub open spec fn nothing() -> Images {
        Images { decoded: Map::empty(), broken: Set::empty(), last_id: 0, version: 0 }
    }

    /// What a store holds after a call. Each image is given the id after the last one.
    pub open spec fn after(self, call: StoreCall) -> Images {
        match call {
            StoreCall::Insert { url, width, height, data } => {
                let id = (self.last_id + 1) as u64;
                Images {
                    decoded: self.decoded.insert(
                        url,
                        DecodedImage { id: ImageId(id), width, height, data },
                    ),
                    broken: self.broken.remove(url),
                    last_id: id,
                    version: (self.version + 1) as u64,
                }
            },
            StoreCall::Broken { url } => Images {
                decoded: self.decoded.remove(url),
                broken: self.broken.insert(url),
                last_id: self.last_id,
                version: (self.version + 1) as u64,
            },
        }
    }
}

spec fn keys(entries: Seq<(String, Arc<DecodedImage>)>) -> Seq<Seq<char>> {
    entries.map_values(|e: (String, Arc<DecodedImage>)| e.0@)
}

spec fn urls(v: Seq<String>) -> Seq<Seq<char>> {
    v.map_values(|s: String| s@)
}

/// The image under `url`, by the first entry for it.
spec fn entry_of(entries: Seq<(String, Arc<DecodedImage>)>, url: Seq<char>) -> int {
    choose|i: int| 0 <= i < entries.len() && #[trigger] entries[i].0@ == url
}

impl View for ImageStore {
    type V = Images;

    closed spec fn view(&self) -> Images {
        Images {
            decoded: Map::new(
                |url: Seq<char>| keys(self.by_url@).contains(url),
                |url: Seq<char>| *self.by_url@[entry_of(self.by_url@, url)].1,
            ),
            broken: urls(self.broken@).to_set(),
            last_id: self.next_id,
            version: self.version,
        }
    }
}

impl ImageStore {
    /// No URL has two entries, none is both decoded and broken, and no id exceeds the
    /// one that was assigned last.
    pub closed spec fn wf(&self) -> bool {
        &&& keys(self.by_url@).no_duplicates()
        &&& urls(self.broken@).no_duplicates()
        &&& forall|url: Seq<char>|
            !(keys(self.by_url@).contains(url) && #[trigger] urls(self.broken@).contains(url))
        &&& forall|i: int|
            0 <= i < self.by_url@.len() ==> (#[trigger] self.by_url@[i]).1.id.0 <= self.next_id
        &&& forall|i: int, j: int|
            0 <= i < j < self.by_url@.len() ==> (#[trigger] self.by_url@[i]).1.id != (
            #[trigger] self.by_url@[j]).1.id
        &&& self.next_id <= self.version
    }

    /// An empty store.
    pub fn new() -> (r: ImageStore)
        ensures
            r.wf(),
            r@ == Images::nothing(),
    {
        let r = ImageStore { by_url: Vec::new(), broken: Vec::new(), next_id: 0, version: 0 };
        assert(r@.decoded =~= Map::<Seq<char>, DecodedImage>::empty());
        assert(r@.broken =~= Set::<Seq<char>>::empty());
        r
    }

    /// The position of the entry for `url`.
    fn position(&self, url: &str) -> (r: Option<usize>)
        ensures
            match r {
                Some(i) => i < self.by_url@.len() && self.by_url@[i as int].0@ == url@,
                None => !keys(self.by_url@).contains(url@),
            },
    {
        let wanted: String = url.to_owned();
        let mut i: usize = 0;
        while i < self.by_url.len()
            invariant
                i <= self.by_url@.len(),
                wanted@ == url@,
                forall|k: int| 0 <= k < i ==> #[trigger] keys(self.by_url@)[k] != url@,
            decreases self.by_url.len() - i,
        {
            if self.by_url[i].0 == wanted {
                return Some(i);
            }
            i = i + 1;
        }
        None
    }

    fn broken_position(&self, url: &str) -> (r: Option<usize>)
        ensures
            match r {
                Some(i) => i < self.broken@.len() && self.broken@[i as int]@ == url@,
                None => !urls(self.broken@).contains(url@),
            },
    {
        let wanted: String = url.to_owned();
        let mut i: usize = 0;
        while i < self.broken.len()
            invariant
                i <= self.broken@.len(),
                wanted@ == url@,
                forall|k: int| 0 <= k < i ==> #[trigger] urls(self.broken@)[k] != url@,
            decreases self.broken.len() - i,
        {
            if self.broken[i] == wanted {
                return Some(i);
            }
            i = i + 1;
        }
        None
    }

    proof fn lemma_entry(&self, i: int)
        requires
            self.wf(),
            0 <= i < self.by_url@.len(),
        ensures
            self@.decoded.dom().contains(self.by_url@[i].0@),
            self@.decoded[self.by_url@[i].0@] == *self.by_url@[i].1,
    {
        let url = self.by_url@[i].0@;
        assert(keys(self.by_url@)[i] == url);
        let k = entry_of(self.by_url@, url);
        assert(0 <= k < self.by_url@.len() && self.by_url@[k].0@ == url);
        assert(keys(self.by_url@)[k] == url);
    }

    /// The decoded image for `url`, if there is one.
    pub fn get(&self, url: &str) -> (r: Option<Arc<DecodedImage>>)
        requires
            self.wf(),
        ensures
            match r {
                Some(image) => self@.decoded.dom().contains(url@) && *image
                    == self@.decoded[url@],
                None => !self@.decoded.dom().contains(url@),
            },
    {
        match self.position(url) {
            Some(i) => {
                proof {
                    self.lemma_entry(i as int);
                }
                Some(Arc::clone(&self.by_url[i].1))
            },
            None => None,
        }
    }

    /// Whether `url` is known to have failed to load or decode.
    pub fn is_broken(&self, url: &str) -> (r: bool)
        ensures
            r == self@.broken.contains(url@),
    {
        let at: Option<usize> = self.broken_position(url);
        proof {
            if let Some(i) = at {
                assert(urls(self.broken@)[i as int] == url@);
            }
        }
        at.is_some()
    }

    /// A counter bumped on every insertion.
    pub fn version(&self) -> (r: u64)
        ensures
            r == self@.version,
    {
        self.version
    }

    /// Inserts (or replaces) a decoded raster image for `url`.
    pub fn insert_raster(
        &mut self,
        url: String,
        width: u32,
        height: u32,
        rgba: Arc<Vec<u8>>,
    ) -> (r: Arc<DecodedImage>)
        requires
            old(self).wf(),
            old(self)@.version < u64::MAX,
        ensures
            final(self).wf(),
            (*r).id.0 == old(self)@.last_id + 1,
            (*r).width == width,
            (*r).height == height,
            (*r).data == (ImageData::Raster { rgba }),
            inserted(old(self)@, final(self)@, url@, *r),
            final(self)@ == old(self)@.after(
                StoreCall::Insert {
                    url: url@,
                    width,
                    height,
                    data: ImageData::Raster { rgba },
                },
            ),
    {
        self.insert(url, width, height, ImageData::Raster { rgba })
    }

    /// Inserts (or replaces) a vector image for `url`, with its intrinsic size and its
    /// markup.
    pub fn insert_vector(
        &mut self,
        url: String,
        width: u32,
        height: u32,
        svg: Arc<Vec<u8>>,
    ) -> (r: Arc<DecodedImage>)
        requires
            old(self).wf(),
            old(self)@.version < u64::MAX,
        ensures
            final(self).wf(),
            (*r).id.0 == old(self)@.last_id + 1,
            (*r).width == width,
            (*r).height == height,
            (*r).data == (ImageData::Vector { svg }),
            inserted(old(self)@, final(self)@, url@, *r),
            final(self)@ == old(self)@.after(
                StoreCall::Insert {
                    url: url@,
                    width,
                    height,
                    data: ImageData::Vector { svg },
                },
            ),
    {
        self.insert(url, width, height, ImageData::Vector { svg })
    }

    /// Inserts (or replaces) the image for `url`, assigning a fresh id and bumping the
    /// version.
    fn insert(&mut self, url: String, width: u32, height: u32, data: ImageData) -> (r: Arc<
        DecodedImage,
    >)
        requires
            old(self).wf(),
            old(self)@.version < u64::MAX,
        ensures
            final(self).wf(),
            (*r).id.0 == old(self)@.last_id + 1,
            (*r).width == width,
            (*r).height == height,
            (*r).data == data,
            inserted(old(self)@, final(self)@, url@, *r),
    {
        let id: u64 = self.next_id + 1;
        let image: Arc<DecodedImage> = Arc::new(
            DecodedImage { id: ImageId(id), width, height, data },
        );
        self.remove_broken(url.as_str());
        self.remove_decoded(url.as_str());
        let ghost mid = *self;
        let ghost name = url@;
        self.next_id = id;
        self.by_url.push((url, Arc::clone(&image)));
        self.version = self.version + 1;
        proof {
            assert(keys(self.by_url@) =~= keys(mid.by_url@).push(name));
            let k = mid.by_url@.len() as int;
            assert(keys(self.by_url@)[k] == name);
            assert forall|u: Seq<char>|
                !(keys(self.by_url@).contains(u) && #[trigger] urls(self.broken@).contains(u)) by {
                if keys(self.by_url@).contains(u) && u != name {
                    let i = choose|i: int|
                        0 <= i < keys(self.by_url@).len() && keys(self.by_url@)[i] == u;
                    assert(keys(mid.by_url@)[i] == u);
                    assert(keys(mid.by_url@).contains(u));
                }
            }
            assert(self.wf());
            assert(self.by_url@.drop_last() =~= mid.by_url@);
            lemma_push(mid, *self, name, image);
            assert(self@.decoded =~= old(self)@.decoded.insert(name, *image));
        }
        image
    }

    /// Forgets the decoded image of `url`.
    fn remove_decoded(&mut self, url: &str)
        requires
            old(self).wf(),
        ensures
            final(self).wf(),
            !keys(final(self).by_url@).contains(url@),
            final(self)@.decoded == old(self)@.decoded.remove(url@),
            final(self).broken == old(self).broken,
            final(self).next_id == old(self).next_id,
            final(self).version == old(self).version,
    {
        match self.position(url) {
            Some(i) => {
                let ghost before = *self;
                self.by_url.remove(i);
                proof {
                    lemma_remove(before, *self, i as int);
                }
            },
            None => {
                assert(self@.decoded.remove(url@) =~= self@.decoded);
            },
        }
    }

    /// Forgets that `url` is broken.
    fn remove_broken(&mut self, url: &str)
        requires
            old(self).wf(),
        ensures
            final(self).wf(),
            !urls(final(self).broken@).contains(url@),
            final(self)@.broken == old(self)@.broken.remove(url@),
            final(self).by_url == old(self).by_url,
            final(self).next_id == old(self).next_id,
            final(self).version == old(self).version,
    {
        match self.broken_position(url) {
            Some(i) => {
                let ghost before = *self;
                self.broken.remove(i);
                proof {
                    let a = urls(before.broken@);
                    let b = urls(self.broken@);
                    assert(b =~= a.remove(i as int));
                    assert forall|u: Seq<char>| #[trigger] b.contains(u) <==> a.contains(u) && u
                        != url@ by {
                        lemma_removed_contains(a, i as int, u);
                    }
                    assert(self@.broken =~= before@.broken.remove(url@));
                    lemma_removed_distinct(a, i as int);
                    assert forall|u: Seq<char>|
                        !(keys(self.by_url@).contains(u) && #[trigger] urls(self.broken@).contains(
                            u,
                        )) by {
                        assert(b.contains(u) ==> a.contains(u));
                    }
                }
            },
            None => {
                assert(self@.broken.remove(url@) =~= self@.broken);
            },
        }
    }

    /// Marks `url` as broken and bumps the version.
    pub fn insert_broken(&mut self, url: String)
        requires
            old(self).wf(),
            old(self)@.version < u64::MAX,
        ensures
            final(self).wf(),
            final(self)@.decoded == old(self)@.decoded.remove(url@),
            final(self)@.broken == old(self)@.broken.insert(url@),
            final(self)@.last_id == old(self)@.last_id,
            final(self)@.version == old(self)@.version + 1,
            final(self)@ == old(self)@.after(StoreCall::Broken { url: url@ }),
    {
        self.remove_decoded(url.as_str());
        self.version = self.version + 1;
        let ghost mid = *self;
        let ghost name = url@;
        let at: Option<usize> = self.broken_position(url.as_str());
        proof {
            if let Some(i) = at {
                assert(urls(self.broken@)[i as int] == name);
            }
        }
        if at.is_none() {
            self.broken.push(url);
            proof {
                let a = urls(mid.broken@);
                let b = urls(self.broken@);
                assert(b =~= a.push(name));
                assert(b[a.len() as int] == name);
                assert forall|u: Seq<char>| #[trigger] b.contains(u) <==> a.contains(u) || u
                    == name by {
                    if a.contains(u) {
                        let k = choose|k: int| 0 <= k < a.len() && a[k] == u;
                        assert(b[k] == u);
                    }
                    if b.contains(u) && u != name {
                        let k = choose|k: int| 0 <= k < b.len() && b[k] == u;
                        assert(a[k] == u);
                    }
                }
            }
        }
        assert(self@.broken =~= mid@.broken.insert(name));
        assert(self@.decoded =~= mid@.decoded);
    }
}

/// `new` is `old` with `image` under `url`, which is not broken any more.
pub open spec fn inserted(old: Images, new: Images, url: Seq<char>, image: DecodedImage) -> bool {
    &&& new.decoded == old.decoded.insert(url, image)
    &&& new.broken == old.broken.remove(url)
    &&& new.last_id == old.last_id + 1
    &&& new.version == old.version + 1
}

proof fn lemma_removed_contains(a: Seq<Seq<char>>, i: int, u: Seq<char>)
    requires
        a.no_duplicates(),
        0 <= i < a.len(),
    ensures
        a.remove(i).contains(u) <==> a.contains(u) && u != a[i],
{
    let b = a.remove(i);
    if b.contains(u) {
        let k = choose|k: int| 0 <= k < b.len() && b[k] == u;
        if k < i {
            assert(a[k] == u);
        } else {
            assert(a[k + 1] == u);
        }
    }
    if a.contains(u) && u != a[i] {
        let k = choose|k: int| 0 <= k < a.len() && a[k] == u;
        if k < i {
            assert(b[k] == u);
        } else {
            assert(b[k - 1] == u);
        }
    }
}

proof fn lemma_removed_distinct(a: Seq<Seq<char>>, i: int)
    requires
        a.no_duplicates(),
        0 <= i < a.len(),
    ensures
        a.remove(i).no_duplicates(),
{
    let b = a.remove(i);
    assert forall|x: int, y: int| 0 <= x < b.len() && 0 <= y < b.len() && x != y implies b[x]
        != b[y] by {
        let x1 = if x < i { x } else { x + 1 };
        let y1 = if y < i { y } else { y + 1 };
        assert(b[x] == a[x1]);
        assert(b[y] == a[y1]);
    }
}

proof fn lemma_remove(before: ImageStore, after: ImageStore, i: int)
    requires
        before.wf(),
        0 <= i < before.by_url@.len(),
        after.by_url@ == before.by_url@.remove(i),
        after.broken == before.broken,
        after.next_id == before.next_id,
        after.version == before.version,
    ensures
        after.wf(),
        !keys(after.by_url@).contains(before.by_url@[i].0@),
        after@.decoded == before@.decoded.remove(before.by_url@[i].0@),
{
    let a = keys(before.by_url@);
    let b = keys(after.by_url@);
    assert(b =~= a.remove(i));
    assert(a[i] == before.by_url@[i].0@);
    lemma_removed_distinct(a, i);
    assert forall|u: Seq<char>| #[trigger] b.contains(u) <==> a.contains(u) && u != a[i] by {
        lemma_removed_contains(a, i, u);
    }
    assert forall|u: Seq<char>|
        !(keys(after.by_url@).contains(u) && #[trigger] urls(after.broken@).contains(u)) by {
        assert(b.contains(u) ==> a.contains(u));
    }
    assert forall|x: int| 0 <= x < after.by_url@.len() implies (#[trigger] after.by_url@[x]).1.id.0
        <= after.next_id by {
        let x1 = if x < i { x } else { x + 1 };
        assert(after.by_url@[x] == before.by_url@[x1]);
    }
    assert forall|x: int, y: int| 0 <= x < y < after.by_url@.len() implies (
    #[trigger] after.by_url@[x]).1.id != (#[trigger] after.by_url@[y]).1.id by {
        let x1 = if x < i { x } else { x + 1 };
        let y1 = if y < i { y } else { y + 1 };
        assert(after.by_url@[x] == before.by_url@[x1]);
        assert(after.by_url@[y] == before.by_url@[y1]);
    }
    assert(after.wf());
    assert forall|u: Seq<char>| #[trigger] after@.decoded.dom().contains(u) implies after@.decoded[u]
        == before@.decoded[u] by {
        let k = choose|k: int| 0 <= k < b.len() && b[k] == u;
        let k1 = if k < i { k } else { k + 1 };
        assert(after.by_url@[k] == before.by_url@[k1]);
        after.lemma_entry(k);
        before.lemma_entry(k1);
    }
    assert(after@.decoded =~= before@.decoded.remove(before.by_url@[i].0@));
}

proof fn lemma_push(before: ImageStore, after: ImageStore, url: Seq<char>, image: Arc<DecodedImage>)
    requires
        before.wf(),
        after.wf(),
        after.by_url@.len() == before.by_url@.len() + 1,
        after.by_url@.drop_last() == before.by_url@,
        after.by_url@.last().0@ == url,
        after.by_url@.last().1 == image,
        !keys(before.by_url@).contains(url),
        after.broken == before.broken,
    ensures
        after@.decoded == before@.decoded.insert(url, *image),
        after@.broken == before@.broken,
{
    let a = keys(before.by_url@);
    let b = keys(after.by_url@);
    let n = before.by_url@.len() as int;
    assert(b =~= a.push(url));
    after.lemma_entry(n);
    assert forall|u: Seq<char>| #[trigger] b.contains(u) <==> a.contains(u) || u == url by {
        if a.contains(u) {
            let k = choose|k: int| 0 <= k < a.len() && a[k] == u;
            assert(b[k] == u);
        }
        if u == url {
            assert(b[n] == u);
        }
        if b.contains(u) && u != url {
            let k = choose|k: int| 0 <= k < b.len() && b[k] == u;
            assert(a[k] == u);
        }
    }
    assert forall|u: Seq<char>| #[trigger] before@.decoded.dom().contains(u) implies after@.decoded[u]
        == before@.decoded[u] by {
        let k = choose|k: int| 0 <= k < a.len() && a[k] == u;
        assert(after.by_url@[k] == before.by_url@[k]);
        after.lemma_entry(k);
        before.lemma_entry(k);
    }
    assert(after@.decoded =~= before@.decoded.insert(url, *image));
}

/// No URL is both decoded and broken.
pub proof fn decoded_and_broken_are_disjoint(store: &ImageStore, url: Seq<char>)
    requires
        store.wf(),
    ensures
        !(store@.decoded.dom().contains(url) && store@.broken.contains(url)),
{
    if store@.decoded.dom().contains(url) && store@.broken.contains(url) {
        assert(urls(store.broken@).contains(url));
    }
}

/// Ids tell images apart: two URLs never share one, and none exceeds the id that was
/// assigned last, so that the next one is fresh.
pub proof fn ids_are_distinct(store: &ImageStore, a: Seq<char>, b: Seq<char>)
    requires
        store.wf(),
        store@.decoded.dom().contains(a),
        store@.decoded.dom().contains(b),
        a != b,
    ensures
        store@.decoded[a].id != store@.decoded[b].id,
        store@.decoded[a].id.0 <= store@.last_id,
{
    let i = choose|i: int| 0 <= i < keys(store.by_url@).len() && keys(store.by_url@)[i] == a;
    let j = choose|j: int| 0 <= j < keys(store.by_url@).len() && keys(store.by_url@)[j] == b;
    store.lemma_entry(i);
    store.lemma_entry(j);
    if i < j {
        assert(store.by_url@[i].1.id != store.by_url@[j].1.id);
    } else {
        assert(store.by_url@[j].1.id != store.by_url@[i].1.id);
    }
}

/// The denominator of a color component: a component is a count of millionths.
pub const COMPONENT_ONE: i64 = 1_000_000;

/// The 8-bit channel nearest to a component, which is held to the range from zero to
/// one first; halves round up.
pub open spec fn channel(component: int) -> int {
    let c = if component < 0 {
        0
    } else if component > COMPONENT_ONE {
        COMPONENT_ONE as int
    } else {
        component
    };
    (2 * c * 255 + COMPONENT_ONE) / (2 * COMPONENT_ONE)
}

fn channel_of(component: i64) -> (r: u8)
    ensures
        r == channel(component as int),
{
    let c: i64 = if component < 0 {
        0
    } else if component > COMPONENT_ONE {
        COMPONENT_ONE
    } else {
        component
    };
    ((2 * c * 255 + COMPONENT_ONE) / (2 * COMPONENT_ONE)) as u8
}

/// An element's computed `color` as 8-bit sRGBA (what `currentColor` inside an inline
/// `<svg>` resolves to), from its sRGB components and its alpha in millionths.
pub fn current_color(srgb: [i64; 4]) -> (r: [u8; 4])
    ensures
        forall|i: int| 0 <= i < 4 ==> #[trigger] r@[i] == channel(srgb@[i] as int),
{
    [channel_of(srgb[0]), channel_of(srgb[1]), channel_of(srgb[2]), channel_of(srgb[3])]
}

/// What a store that was empty holds after the first `n` calls.
pub open spec fn store_after(calls: Seq<StoreCall>, n: int) -> Images
    decreases n,
{
    if n <= 0 {
        Images::nothing()
    } else {
        store_after(calls, n - 1).after(calls[n - 1])
    }
}

/// How many of the first `n` calls insert an image.
pub open spec fn insert_count(calls: Seq<StoreCall>, n: int) -> int
    decreases n,
{
    if n <= 0 {
        0
    } else {
        insert_count(calls, n - 1) + if calls[n - 1] is Insert {
            1int
        } else {
            0int
        }
    }
}

/// The last of the first `n` calls that is for `url`.
pub open spec fn last_call(calls: Seq<StoreCall>, n: int, url: Seq<char>) -> Option<int>
    decreases n,
{
    if n <= 0 {
        None
    } else if calls[n - 1].url() == url {
        Some(n - 1)
    } else {
        last_call(calls, n - 1, url)
    }
}

/// The version counts the calls, and the last id the images that were inserted: they have the
/// ids 1, 2, 3 and so on, whatever URLs were replaced or marked broken in between.
pub proof fn ids_and_versions_count_up(calls: Seq<StoreCall>, n: int)
    requires
        0 <= n <= calls.len() <= u64::MAX,
    ensures
        store_after(calls, n).version == n,
        store_after(calls, n).last_id == insert_count(calls, n),
        0 <= insert_count(calls, n) <= n,
        n > 0 && calls[n - 1] is Insert ==> store_after(
            calls,
            n,
        ).decoded[calls[n - 1].url()].id.0 == insert_count(calls, n - 1) + 1,
    decreases n,
{
    if n > 0 {
        ids_and_versions_count_up(calls, n - 1);
    }
}

/// No two calls that insert an image give it the same id.
pub proof fn inserted_ids_differ(calls: Seq<StoreCall>, j: int, k: int)
    requires
        0 <= j < k < calls.len(),
        calls[j] is Insert,
        calls[k] is Insert,
    ensures
        insert_count(calls, j) + 1 <= insert_count(calls, k),
    decreases k,
{
    if j + 1 < k {
        if calls[k - 1] is Insert {
            inserted_ids_differ(calls, j, k - 1);
        } else {
            lemma_inserts_grow(calls, j + 1, k);
        }
    }
}

proof fn lemma_inserts_grow(calls: Seq<StoreCall>, j: int, k: int)
    requires
        0 <= j <= k <= calls.len(),
    ensures
        insert_count(calls, j) <= insert_count(calls, k),
    decreases k,
{
    if j < k {
        lemma_inserts_grow(calls, j, k - 1);
    }
}

/// The last call for a URL decides: its image is there, or it is broken, and never both; a URL
/// without a call is neither.
pub proof fn the_last_call_decides(calls: Seq<StoreCall>, n: int, url: Seq<char>)
    requires
        0 <= n <= calls.len() <= u64::MAX,
    ensures
        ({
            let s = store_after(calls, n);
            match last_call(calls, n, url) {
                None => !s.decoded.contains_key(url) && !s.broken.contains(url),
                Some(k) => 0 <= k < n && match calls[k] {
                    StoreCall::Insert { url: u, width, height, data } => {
                        &&& s.decoded.contains_key(url)
                        &&& s.decoded[url] == (DecodedImage {
                            id: ImageId((insert_count(calls, k) + 1) as u64),
                            width,
                            height,
                            data,
                        })
                        &&& !s.broken.contains(url)
                    },
                    StoreCall::Broken { .. } => !s.decoded.contains_key(url) && s.broken.contains(
                        url,
                    ),
                },
            }
        }),
    decreases n,
{
    if n > 0 {
        the_last_call_decides(calls, n - 1, url);
        ids_and_versions_count_up(calls, n - 1);
    }
}

} // verus!
