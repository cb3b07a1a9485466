//! A viewer's state: loaded files kept by 1-based handle, several open at
//! once, each rendered on demand at any size.

use vstd::prelude::*;
use crate::container::{decode_payload_checked, payload_decodable, payload_spec, FilePayload, Image, PayloadView};
use crate::pixel::{from_rgba_bytes, pixels_of, rgba_bytes, to_rgba_bytes};
use crate::reconstruct::{fits_scale, scale, scale_accepts, scale_spec, scalable};
use crate::render::{rasterize_checked, raster_spec};
use crate::vector::{ArtView, VectorImage};

verus! {

/// A loaded file: raster pixels as RGBA bytes, or vector art with its design
/// size.
pub enum Loaded {
    Raster { pixels: Vec<u8>, width: u32, height: u32 },
    Vector { art: VectorImage, design_w: u32, design_h: u32 },
}

/// The mathematical content of a `Loaded`.
pub enum LoadedView {
    Raster { pixels: Seq<u8>, width: u32, height: u32 },
    Vector { art: ArtView, design_w: u32, design_h: u32 },
}

impl View for Loaded {
    type V = LoadedView;

    open spec fn view(&self) -> LoadedView {
        match self {
            Loaded::Raster { pixels, width, height } => LoadedView::Raster {
                pixels: pixels@,
                width: *width,
                height: *height,
            },
            Loaded::Vector { art, design_w, design_h } => LoadedView::Vector {
                art: art@,
                design_w: *design_w,
                design_h: *design_h,
            },
        }
    }
}

/// What loading a decoded payload keeps.
pub open spec fn loaded_of(p: PayloadView) -> LoadedView {
    match p {
        PayloadView::Raster { width, height, pixels } => LoadedView::Raster {
            pixels: rgba_bytes(pixels),
            width,
            height,
        },
        PayloadView::Vector { art, width, height } => LoadedView::Vector {
            art,
            design_w: width,
            design_h: height,
        },
    }
}

/// A decoded payload whose RGBA bytes fit in memory; raster pixels take
/// four bytes each.
pub open spec fn keepable(p: PayloadView) -> bool {
    match p {
        PayloadView::Raster { pixels, .. } => 4 * pixels.len() <= usize::MAX,
        PayloadView::Vector { .. } => true,
    }
}

/// A raster entry holds four bytes per pixel of a nonempty image.
pub open spec fn loaded_wf(l: LoadedView) -> bool {
    match l {
        LoadedView::Raster { pixels, width, height } => width >= 1 && height >= 1 && pixels.len()
            == 4 * (width * height),
        LoadedView::Vector { .. } => true,
    }
}

/// Loaded files; handle `h` names slot `h - 1`, and an unloaded slot stays
/// empty.
pub struct Slab {
    pub slots: Vec<Option<Loaded>>,
}

impl View for Slab {
    type V = Seq<Option<LoadedView>>;

    open spec fn view(&self) -> Seq<Option<LoadedView>> {
        self.slots@.map_values(|s: Option<Loaded>| match s {
            Some(l) => Some(l@),
            None => None,
        })
    }
}

/// The slot a handle names: `handle - 1`, wrapping for handle 0.
pub open spec fn slot_index(handle: u32) -> int {
    if handle == 0 {
        u32::MAX as int
    } else {
        handle - 1
    }
}

/// The entry a handle names, if it is loaded.
pub open spec fn entry(slots: Seq<Option<LoadedView>>, handle: u32) -> Option<LoadedView> {
    let i = slot_index(handle);
    if 0 <= i < slots.len() {
        slots[i]
    } else {
        None
    }
}

/// The entry kind: 1 raster, 2 vector, 0 for an invalid handle.
pub open spec fn kind_spec(slots: Seq<Option<LoadedView>>, handle: u32) -> i32 {
    match entry(slots, handle) {
        Some(LoadedView::Raster { .. }) => 1,
        Some(LoadedView::Vector { .. }) => 2,
        None => 0,
    }
}

/// Native size of a raster entry or design size of a vector entry; (0, 0)
/// for an invalid handle.
pub open spec fn size_spec(slots: Seq<Option<LoadedView>>, handle: u32) -> (u32, u32) {
    match entry(slots, handle) {
        Some(LoadedView::Raster { width, height, .. }) => (width, height),
        Some(LoadedView::Vector { design_w, design_h, .. }) => (design_w, design_h),
        None => (0, 0),
    }
}

/// What rendering an entry at (out_w, out_h) gives: `Some(Some(bytes))`,
/// `Some(None)` for a failure (invalid handle, refused size, bad art), or
/// `None` where the fixed-width arithmetic would overflow.
pub open spec fn render_spec(slots: Seq<Option<LoadedView>>, handle: u32, out_w: u32, out_h: u32) -> Option<
    Option<Seq<u8>>,
> {
    match entry(slots, handle) {
        None => Some(None),
        Some(LoadedView::Raster { pixels, width, height }) => if out_w == width && out_h == height {
            Some(Some(pixels))
        } else if !scale_accepts(width, height, out_w, out_h) {
            Some(None)
        } else if !scalable(width, height, out_w, out_h) || 4 * (out_w * out_h) > usize::MAX {
            None
        } else {
            match scale_spec(width, height, pixels_of(pixels), out_w, out_h) {
                Ok(px) => Some(Some(rgba_bytes(px))),
                Err(_) => Some(None),
            }
        },
        Some(LoadedView::Vector { art, design_w, design_h }) => match raster_spec(
            art,
            design_w,
            design_h,
            out_w,
            out_h,
        ) {
            None => None,
            Some(Err(_)) => Some(None),
            Some(Ok(px)) => if 4 * px.len() > usize::MAX {
                None
            } else {
                Some(Some(rgba_bytes(px)))
            },
        },
    }
}

/// Loading a file never disturbs another: after a new entry is added,
/// every earlier handle names what it named before, and the new handle
/// names the new entry.
pub proof fn lemma_load_keeps_others(slots: Seq<Option<LoadedView>>, l: LoadedView, handle: u32)
    requires
        slots.len() < u32::MAX,
    ensures
        1 <= handle <= slots.len() ==> entry(slots.push(Some(l)), handle) == entry(slots, handle),
        handle == slots.len() + 1 ==> entry(slots.push(Some(l)), handle) == Some(l),
{
}

/// Unloading one handle leaves every other handle's entry as it was.
pub proof fn lemma_unload_keeps_others(slots: Seq<Option<LoadedView>>, gone: u32, handle: u32)
    requires
        0 <= slot_index(gone) < slots.len(),
        handle != gone,
    ensures
        entry(slots.update(slot_index(gone), None), handle) == entry(slots, handle),
        entry(slots.update(slot_index(gone), None), gone) is None,
{
}

/// One change to the loaded files: a load that kept an entry or kept
/// nothing, or an unload of a handle.
pub enum SlabOp {
    Load(Option<LoadedView>),
    Unload(u32),
}

/// The loaded files after one change.
pub open spec fn apply_op(slots: Seq<Option<LoadedView>>, op: SlabOp) -> Seq<Option<LoadedView>> {
    match op {
        SlabOp::Load(Some(l)) => slots.push(Some(l)),
        SlabOp::Load(None) => slots,
        SlabOp::Unload(g) => if 0 <= slot_index(g) < slots.len() {
            slots.update(slot_index(g), None)
        } else {
            slots
        },
    }
}

/// The loaded files after a run of changes, in order.
pub open spec fn apply_ops(slots: Seq<Option<LoadedView>>, ops: Seq<SlabOp>) -> Seq<Option<LoadedView>>
    decreases ops.len(),
{
    if ops.len() == 0 {
        slots
    } else {
        apply_ops(apply_op(slots, ops[0]), ops.drop_first())
    }
}

/// What a load keeps of a file: its entry, or nothing when it does not
/// decode or does not fit in memory.
pub open spec fn load_result(bytes: Seq<u8>) -> Option<LoadedView> {
    match payload_spec(bytes) {
        Ok(p) => if keepable(p) {
            Some(loaded_of(p))
        } else {
            None
        },
        Err(_) => None,
    }
}

/// Changes never shrink the loaded files.
proof fn lemma_ops_grow(slots: Seq<Option<LoadedView>>, ops: Seq<SlabOp>)
    ensures
        apply_ops(slots, ops).len() >= slots.len(),
    decreases ops.len(),
{
    if ops.len() > 0 {
        lemma_ops_grow(apply_op(slots, ops[0]), ops.drop_first());
    }
}

/// A handle, once loaded, names its entry until it is unloaded, whatever
/// else is loaded or unloaded meanwhile; once unloaded, any number of times,
/// it names nothing and its kind is 0. Handle 0 and handles past the loaded
/// files name nothing.
pub proof fn lemma_handle_lifetime(slots: Seq<Option<LoadedView>>, ops: Seq<SlabOp>, h: u32)
    requires
        0 <= slot_index(h) < slots.len(),
    ensures
        (forall|i: int| 0 <= i < ops.len() ==> ops[i] != SlabOp::Unload(h)) ==> entry(
            apply_ops(slots, ops),
            h,
        ) == entry(slots, h) && kind_spec(apply_ops(slots, ops), h) == kind_spec(slots, h),
        (exists|i: int| 0 <= i < ops.len() && ops[i] == SlabOp::Unload(h)) ==> entry(
            apply_ops(slots, ops),
            h,
        ) is None && kind_spec(apply_ops(slots, ops), h) == 0,
    decreases ops.len(),
{
    if ops.len() > 0 {
        let s1 = apply_op(slots, ops[0]);
        let rest = ops.drop_first();
        lemma_handle_lifetime(s1, rest, h);
        if ops[0] == SlabOp::Unload(h) {
            lemma_stays_unloaded(s1, rest, h);
        } else {
            assert(entry(s1, h) == entry(slots, h));
        }
        assert forall|i: int| 0 <= i < rest.len() implies rest[i] == ops[i + 1] by {}
        if exists|i: int| 0 <= i < ops.len() && ops[i] == SlabOp::Unload(h) {
            let i = choose|i: int| 0 <= i < ops.len() && ops[i] == SlabOp::Unload(h);
            if i > 0 {
                assert(rest[i - 1] == SlabOp::Unload(h));
            }
        }
    }
}

/// An unloaded handle stays unloaded: loads only add entries after the
/// last one.
proof fn lemma_stays_unloaded(slots: Seq<Option<LoadedView>>, ops: Seq<SlabOp>, h: u32)
    requires
        0 <= slot_index(h) < slots.len(),
        entry(slots, h) is None,
    ensures
        entry(apply_ops(slots, ops), h) is None,
    decreases ops.len(),
{
    if ops.len() > 0 {
        let s1 = apply_op(slots, ops[0]);
        assert(entry(s1, h) is None);
        lemma_stays_unloaded(s1, ops.drop_first(), h);
    }
}

/// Handle 0, and any handle past the loaded files, names nothing.
pub proof fn lemma_invalid_handles(slots: Seq<Option<LoadedView>>, h: u32)
    requires
        slots.len() <= u32::MAX,
        h == 0 || h > slots.len(),
    ensures
        entry(slots, h) is None,
        kind_spec(slots, h) == 0,
{
}

impl Slab {
    /// Every entry is well formed.
    pub open spec fn wf(&self) -> bool {
        forall|i: int| 0 <= i < self@.len() ==> (#[trigger] self@[i] matches Some(l) ==> loaded_wf(l))
    }

    /// An empty slab.
    pub fn new() -> (s: Slab)
        ensures
            s@ == Seq::<Option<LoadedView>>::empty(),
            s.wf(),
    {
        let s = Slab { slots: Vec::new() };
        proof {
            assert(s@ =~= Seq::<Option<LoadedView>>::empty());
        }
        s
    }

    /// The entry a handle names, if it is loaded.
    pub fn get(&self, handle: u32) -> (r: Option<&Loaded>)
        ensures
            match entry(self@, handle) {
                Some(l) => r matches Some(x) && x@ == l,
                None => r is None,
            },
    {
        let i = handle.wrapping_sub(1) as usize;
        proof {
            assert(i as int == slot_index(handle));
        }
        if i < self.slots.len() {
            match &self.slots[i] {
                Some(l) => Some(l),
                None => None,
            }
        } else {
            None
        }
    }

    /// Decode a file and keep it. Returns its handle (1-based), or 0 when it
    /// does not decode or its pixels as RGBA bytes would not fit in memory; `None` where decoding would overflow
    /// (a vector path coordinate leaving i64), the slab then unchanged.
    pub fn load(&mut self, bytes: &[u8]) -> (handle: Option<u32>)
        requires
            old(self).wf(),
        ensures
            final(self).wf(),
            handle is None <==> !payload_decodable(bytes@),
            handle is None ==> final(self)@ == old(self)@,
            handle is Some ==> final(self)@ == apply_op(old(self)@, SlabOp::Load(load_result(bytes@))),
            handle is Some ==> match payload_spec(bytes@) {
                Ok(p) => if keepable(p) {
                    final(self)@ == old(self)@.push(Some(loaded_of(p))) && handle == Some(
                        (old(self)@.len() + 1) as u32,
                    )
                } else {
                    final(self)@ == old(self)@ && handle == Some(0u32)
                },
                Err(_) => final(self)@ == old(self)@ && handle == Some(0u32),
            },
    {
        let loaded = match decode_payload_checked(bytes) {
            None => {
                return None;
            },
            Some(Ok(FilePayload::Raster(img))) => {
                proof {
                    crate::container::lemma_raster_payload_wf(bytes@);
                }
                if img.pixels.len() > usize::MAX / 4 {
                    return Some(0);
                }
                Loaded::Raster {
                    pixels: to_rgba_bytes(img.pixels.as_slice()),
                    width: img.width,
                    height: img.height,
                }
            },
            Some(Ok(FilePayload::Vector { art, width, height })) => Loaded::Vector {
                art,
                design_w: width,
                design_h: height,
            },
            Some(Err(_)) => {
                return Some(0);
            },
        };
        let ghost before = self@;
        self.slots.push(Some(loaded));
        proof {
            assert(self@ =~= before.push(Some(loaded@)));
        }
        Some(self.slots.len() as u32)
    }

    /// Release a handle's entry. Unloading twice, or an invalid handle, does
    /// nothing.
    pub fn unload(&mut self, handle: u32)
        requires
            old(self).wf(),
        ensures
            final(self).wf(),
            final(self)@ == apply_op(old(self)@, SlabOp::Unload(handle)),
            final(self)@ == if 0 <= slot_index(handle) < old(self)@.len() {
                old(self)@.update(slot_index(handle), None)
            } else {
                old(self)@
            },
    {
        let i = handle.wrapping_sub(1) as usize;
        proof {
            assert(i as int == slot_index(handle));
        }
        if i < self.slots.len() {
            let ghost before = self@;
            self.slots.set(i, None);
            proof {
                assert(self@ =~= before.update(i as int, None));
            }
        }
    }

    /// 1 if `handle` holds a raster payload, 2 if vector, 0 if the handle is
    /// invalid.
    pub fn kind(&self, handle: u32) -> (k: i32)
        ensures
            k == kind_spec(self@, handle),
    {
        match self.get(handle) {
            Some(Loaded::Raster { .. }) => 1,
            Some(Loaded::Vector { .. }) => 2,
            None => 0,
        }
    }

    /// Native width of a raster entry, design width of a vector entry, 0 for
    /// an invalid handle.
    pub fn width(&self, handle: u32) -> (w: u32)
        ensures
            w == size_spec(self@, handle).0,
    {
        match self.get(handle) {
            Some(Loaded::Raster { width, .. }) => *width,
            Some(Loaded::Vector { design_w, .. }) => *design_w,
            None => 0,
        }
    }

    /// Native height of a raster entry, design height of a vector entry, 0
    /// for an invalid handle.
    pub fn height(&self, handle: u32) -> (h: u32)
        ensures
            h == size_spec(self@, handle).1,
    {
        match self.get(handle) {
            Some(Loaded::Raster { height, .. }) => *height,
            Some(Loaded::Vector { design_h, .. }) => *design_h,
            None => 0,
        }
    }

    /// Render an entry at (out_w, out_h) as RGBA bytes. Raster entries use
    /// the mandated reconstruction, which refuses sizes below the native
    /// one; vector entries rasterize at any size. `Some(None)` reports a
    /// failure; `None` an input on which the fixed-width arithmetic would
    /// overflow.
    pub fn render(&self, handle: u32, out_w: u32, out_h: u32) -> (r: Option<Option<Vec<u8>>>)
        requires
            self.wf(),
        ensures
            match render_spec(self@, handle, out_w, out_h) {
                None => r is None,
                Some(None) => r == Some(None::<Vec<u8>>),
                Some(Some(b)) => r matches Some(Some(v)) && v@ == b,
            },
    {
        match self.get(handle) {
            None => Some(None),
            Some(Loaded::Raster { pixels, width, height }) => {
                if out_w == *width && out_h == *height {
                    return Some(Some(pixels.clone()));
                }
                if !(out_w >= *width && out_h >= *height && out_w > 0 && out_h > 0) {
                    return Some(None);
                }
                if !fits_scale(*width, *height, out_w, out_h) {
                    return None;
                }
                if (out_w as u128) * (out_h as u128) * 4 > usize::MAX as u128 {
                    return None;
                }
                proof {
                    let i = slot_index(handle);
                    assert(self@[i] matches Some(l) ==> loaded_wf(l));
                }
                let img = Image { width: *width, height: *height, pixels: from_rgba_bytes(pixels.as_slice()) };
                proof {
                    assert(img.pixels@.len() == img.width * img.height);
                }
                match scale(&img, out_w, out_h) {
                    Ok(scaled) => Some(Some(to_rgba_bytes(scaled.pixels.as_slice()))),
                    Err(_) => Some(None),
                }
            },
            Some(Loaded::Vector { art, design_w, design_h }) => {
                match rasterize_checked(art, *design_w, *design_h, out_w, out_h) {
                    None => None,
                    Some(Err(_)) => Some(None),
                    Some(Ok(px)) => {
                        if (px.len() as u128) * 4 > usize::MAX as u128 {
                            return None;
                        }
                        Some(Some(to_rgba_bytes(px.as_slice())))
                    },
                }
            },
        }
    }
}

} // verus!
