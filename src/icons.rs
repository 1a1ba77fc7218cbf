use vstd::prelude::*;
use image::RgbaImage;
use crate::registry::{
    distinct, find_path, lemma_position_of, lemma_push_distinct, paths_in, position_of,
    saturating_sum, HasPath,
};

verus! {

impl HasPath for CachedIcon {
    open spec fn path_view(&self) -> Seq<char> {
        self.path@
    }

    fn path_ref(&self) -> (r: &String) {
        &self.path
    }
}

/// Side, in pixels, of every decoded icon.
pub const ICON_SIDE: usize = 128;

/// Bytes of a decoded icon: four per pixel.
pub const ICON_BYTES: usize = 4 * ICON_SIDE * ICON_SIDE;

/// Relies on `ImageBuffer::from_raw` and `ImageBuffer::into_raw` for RGBA
/// pixels: the buffer is accepted when it holds at least four bytes for each
/// of the `width` by `height` pixels, and is handed back as it came.
#[verifier::external_body]
fn rgba_buffer(width: u32, height: u32, pixels: Vec<u8>) -> (r: Option<Vec<u8>>)
    ensures
        r is Some <==> 4 * width * height <= pixels@.len(),
        r matches Some(b) ==> b@ == pixels@,
{
    match RgbaImage::from_raw(width, height, pixels) {
        Some(img) => Some(img.into_raw()),
        None => None,
    }
}

/// An icon as the platform's extraction service hands it over: RGBA rows
/// of `width` by `height` pixels.
pub struct RawIcon {
    pub width: u32,
    pub height: u32,
    pub pixels: Vec<u8>,
}

/// A decoded icon: `ICON_SIDE` by `ICON_SIDE` pixels of premultiplied RGBA.
pub struct Bitmap {
    rgba: Vec<u8>,
}

impl View for Bitmap {
    type V = Seq<u8>;

    closed spec fn view(&self) -> Seq<u8> {
        self.rgba@
    }
}

impl Bitmap {
    pub open spec fn wf(&self) -> bool {
        self@.len() == ICON_BYTES
    }

    pub fn side(&self) -> (r: usize)
        ensures
            r == ICON_SIDE,
    {
        ICON_SIDE
    }

    /// The pixels, row by row, four bytes each.
    pub fn rgba(&self) -> (r: &Vec<u8>)
        ensures
            r@ == self@,
    {
        &self.rgba
    }
}

#[derive(Debug, PartialEq, Eq, Structural)]
pub enum IconError {
    IconUnavailable,
}

/// Whether `raw` decodes to a square icon of the fixed size.
pub open spec fn decodable(width: u32, height: u32, pixels: Seq<u8>) -> bool {
    4 * width * height <= pixels.len() && pixels.len() == ICON_BYTES
}

/// Turns extracted pixels into a square icon of the fixed size; fails with
/// `IconUnavailable` when the buffer does not hold exactly that many pixels
/// or is too short for the stated dimensions.
pub fn decode_icon(raw: RawIcon) -> (r: Result<Bitmap, IconError>)
    ensures
        r is Ok <==> decodable(raw.width, raw.height, raw.pixels@),
        r matches Ok(b) ==> b@ == raw.pixels@ && b.wf(),
        r is Err ==> r == Err::<Bitmap, IconError>(IconError::IconUnavailable),
{
    match rgba_buffer(raw.width, raw.height, raw.pixels) {
        Some(buf) => {
            if buf.len() == ICON_BYTES {
                Ok(Bitmap { rgba: buf })
            } else {
                Err(IconError::IconUnavailable)
            }
        },
        None => Err(IconError::IconUnavailable),
    }
}

/// A decoded icon and the path it belongs to.
pub struct CachedIcon {
    pub path: String,
    pub bitmap: Bitmap,
}

pub open spec fn icons_view(v: Seq<CachedIcon>) -> Seq<(Seq<char>, Seq<u8>)> {
    v.map_values(|c: CachedIcon| (c.path@, c.bitmap@))
}

pub open spec fn icon_paths(s: Seq<(Seq<char>, Seq<u8>)>) -> Seq<Seq<char>> {
    s.map_values(|x: (Seq<char>, Seq<u8>)| x.0)
}

/// Decoded icons by path, each decoded at most once.
pub struct IconCache {
    icons: Vec<CachedIcon>,
    extractions: u64,
}

impl View for IconCache {
    type V = Seq<(Seq<char>, Seq<u8>)>;

    closed spec fn view(&self) -> Seq<(Seq<char>, Seq<u8>)> {
        icons_view(self.icons@)
    }
}

impl IconCache {
    /// How many extraction results the cache has taken in.
    pub closed spec fn extraction_count(&self) -> u64 {
        self.extractions
    }

    pub closed spec fn wf(&self) -> bool {
        &&& distinct(icon_paths(self@))
        &&& forall|i: int| 0 <= i < self.icons@.len() ==> #[trigger] self.icons@[i].bitmap.wf()
    }

    pub fn new() -> (r: Self)
        ensures
            r@ == Seq::<(Seq<char>, Seq<u8>)>::empty(),
            r.extraction_count() == 0,
            r.wf(),
    {
        let r = IconCache { icons: Vec::new(), extractions: 0 };
        assert(r@ =~= Seq::<(Seq<char>, Seq<u8>)>::empty());
        r
    }

    pub fn extractions(&self) -> (r: u64)
        ensures
            r == self.extraction_count(),
    {
        self.extractions
    }

    /// Whether an icon is cached for `path`.
    pub fn contains(&self, path: &String) -> (r: bool)
        ensures
            r == icon_paths(self@).contains(path@),
    {
        proof {
            lemma_position_of(icon_paths(self@), path@);
        }
        self.find(path).is_some()
    }

    fn find(&self, path: &String) -> (r: Option<usize>)
        ensures
            match r {
                Some(i) => i == position_of(icon_paths(self@), path@) && i < self@.len(),
                None => position_of(icon_paths(self@), path@) == -1,
            },
    {
        assert(paths_in(self.icons@) =~= icon_paths(self@));
        find_path(&self.icons, path)
    }

    /// The icon cached for `path`, if any; makes no extraction.
    pub fn cached(&self, path: &String) -> (r: Option<&Bitmap>)
        requires
            self.wf(),
        ensures
            r is Some <==> icon_paths(self@).contains(path@),
            r matches Some(b) ==> b@ == self@[position_of(icon_paths(self@), path@)].1 && b.wf(),
    {
        proof {
            lemma_position_of(icon_paths(self@), path@);
        }
        match self.find(path) {
            Some(i) => {
                assert(self.icons@[i as int].bitmap.wf());
                Some(&self.icons[i].bitmap)
            },
            None => None,
        }
    }

    /// Takes in the result of one extraction for `path`, which has no icon
    /// cached yet. A result that decodes is cached and kept for the rest of
    /// the run; a failed extraction or one that does not decode gives
    /// `IconUnavailable` and is not remembered, so a later call extracts again.
    pub fn accept(&mut self, path: String, extracted: Option<RawIcon>) -> (r: Result<(), IconError>)
        requires
            old(self).wf(),
            !icon_paths(old(self)@).contains(path@),
        ensures
            final(self).wf(),
            final(self).extraction_count() == saturating_sum(old(self).extraction_count(), 1),
            r is Ok <==> (extracted matches Some(raw) && decodable(raw.width, raw.height, raw.pixels@)),
            r is Ok ==> (extracted matches Some(raw) && final(self)@ == old(self)@.push((path@, raw.pixels@))),
            r is Err ==> final(self)@ == old(self)@ && r == Err::<(), IconError>(IconError::IconUnavailable),
    {
        self.extractions = self.extractions.saturating_add(1);
        match extracted {
            Some(raw) => {
                let ghost pixels = raw.pixels@;
                match decode_icon(raw) {
                    Ok(bitmap) => {
                        let ghost s = self@;
                        let ghost icons = self.icons@;
                        self.icons.push(CachedIcon { path, bitmap });
                        let ghost t = self@;
                        assert(t =~= s.push((path@, pixels)));
                        assert(icon_paths(t) =~= icon_paths(s).push(path@));
                        proof {
                            lemma_push_distinct(icon_paths(s), path@);
                        }
                        assert forall|i: int| 0 <= i < self.icons@.len() implies #[trigger] self.icons@[i].bitmap.wf() by {
                            if i < icons.len() {
                                assert(self.icons@[i] == icons[i]);
                            }
                        }
                        Ok(())
                    },
                    Err(e) => Err(e),
                }
            },
            None => Err(IconError::IconUnavailable),
        }
    }

    /// The icon for `path`: from the cache when it is there, with no call of
    /// `extract`; otherwise `extract` is called exactly once and its result
    /// taken in as `accept` does.
    pub fn resolve<F: FnOnce(&String) -> Option<RawIcon>>(&mut self, path: &String, extract: F) -> (r: Result<&Bitmap, IconError>)
        requires
            old(self).wf(),
            extract.requires((path,)),
        ensures
            final(self).wf(),
            icon_paths(old(self)@).contains(path@) ==> r is Ok && final(self)@ == old(self)@
                && final(self).extraction_count() == old(self).extraction_count(),
            !icon_paths(old(self)@).contains(path@) ==> final(self).extraction_count()
                == saturating_sum(old(self).extraction_count(), 1),
            !icon_paths(old(self)@).contains(path@) ==> exists|x: Option<RawIcon>|
                #[trigger] extract.ensures((path,), x) && (match x {
                    Some(raw) => if decodable(raw.width, raw.height, raw.pixels@) {
                        r is Ok && final(self)@ == old(self)@.push((path@, raw.pixels@))
                    } else {
                        r is Err && final(self)@ == old(self)@
                    },
                    None => r is Err && final(self)@ == old(self)@,
                }),
            r is Ok ==> icon_paths(final(self)@).contains(path@),
            r matches Ok(b) ==> b.wf() && b@ == final(self)@[position_of(icon_paths(final(self)@), path@)].1,
            r is Err ==> final(self)@ == old(self)@ && r == Err::<&Bitmap, IconError>(IconError::IconUnavailable),
    {
        proof {
            lemma_position_of(icon_paths(self@), path@);
        }
        match self.find(path) {
            Some(i) => {
                assert(self.icons@[i as int].bitmap.wf());
                return Ok(&self.icons[i].bitmap);
            },
            None => {},
        }
        let extracted = extract(path);
        let ghost x = extracted;
        match self.accept(path.clone(), extracted) {
            Ok(()) => {
                let n = self.icons.len();
                proof {
                    let t = self@;
                    assert(icon_paths(t)[t.len() - 1] == path@);
                    lemma_position_of(icon_paths(t), path@);
                    assert(self.icons@[n - 1].bitmap.wf());
                }
                Ok(&self.icons[n - 1].bitmap)
            },
            Err(e) => Err(e),
        }
    }
}

} // verus!
