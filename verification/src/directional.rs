//! Array resource manager for directional lights.
//!
//! The manager owns a handle registry of lights plus the GPU-derived state:
//! a packed storage buffer, a shadow texture array with one layer per light,
//! and a cached bind group referencing both. GPU resources are modeled by
//! identities (generation numbers): recreating the texture array or
//! reallocating the buffer yields a fresh identity, and the bind group is a
//! snapshot of the identities it was built from — so "was the bind group
//! rebuilt" is exactly "did its identity change".
//!
//! Scalar light parameters (color, direction, intensity) are carried as raw
//! 32-bit words: the manager packs and orders them but never interprets
//! them, so the caller may store any fixed-point or raw float encoding its
//! shaders expect.

use vstd::prelude::*;

use crate::pot_buffer::{max_nat, pot_ceil, PotBuffer};
use crate::registry::{swept, swept_out, Entry, Handle, ResourceRegistry};

verus! {

/// Three raw 32-bit component words (a direction or color vector).
#[derive(Clone, Copy, Debug, PartialEq, Eq, Structural)]
pub struct Vec3Words {
    pub x: u32,
    pub y: u32,
    pub z: u32,
}

/// Caller-facing description of one directional light.
#[derive(Clone, Copy, Debug, PartialEq, Eq, Structural)]
pub struct DirectionalLight {
    pub color: Vec3Words,
    pub direction: Vec3Words,
    pub intensity: u32,
}

/// A partial change to a directional light; absent fields keep their value.
#[derive(Clone, Copy, Debug)]
pub struct DirectionalLightChange {
    pub color: Option<Vec3Words>,
    pub direction: Option<Vec3Words>,
    pub intensity: Option<u32>,
}

/// Registry entry for one light: the caller's value plus derived
/// per-instance state (the assigned shadow texture array layer).
#[derive(Clone, Copy, Debug, PartialEq, Eq, Structural)]
pub struct InternalDirectionalLight {
    pub inner: DirectionalLight,
    pub shadow_tex: u32,
}

/// Identity of a bind group: the identities of the resources it was built
/// from. Equal identities mean the same GPU-side object.
#[derive(Clone, Copy, Debug, PartialEq, Eq, Structural)]
pub struct BindGroupId {
    pub buffer_id: u64,
    pub texture_id: u64,
}

/// Identity of a single-layer view into a shadow texture array.
#[derive(Clone, Copy, Debug, PartialEq, Eq, Structural)]
pub struct LayerViewId {
    pub texture_id: u64,
    pub layer: usize,
}

/// The fixed shader-visible binding slots of the shadow bind group layout;
/// stable for the manager's lifetime.
#[derive(Clone, Copy, Debug, PartialEq, Eq, Structural)]
pub struct ShadowBindGroupLayout {
    pub buffer_binding: u32,
    pub texture_binding: u32,
}

/// The device work one `ready` step asks of the caller, together with what
/// it changed.
pub struct ReadyOutcome {
    /// Entries swept this frame, for cleanup of associated resources.
    pub removed: Vec<InternalDirectionalLight>,
    /// Whether the shadow texture array (and all its layer views) must be
    /// recreated.
    pub texture_recreated: bool,
    /// Layer count of the (possibly recreated) texture array.
    pub layer_count: usize,
    /// The packed buffer contents: a header with the element count, then
    /// one fixed-size record per live light in registry iteration order.
    pub payload: Vec<u8>,
    /// Whether the buffer outgrew its capacity and was reallocated.
    pub buffer_reallocated: bool,
    /// Byte capacity the backing buffer must have.
    pub buffer_capacity: usize,
    /// Whether the bind group must be rebuilt (iff a referenced resource
    /// identity changed).
    pub bind_group_rebuilt: bool,
    /// Identity of the current bind group after this step.
    pub bind_group: BindGroupId,
}

/// Lights beyond this count are a caller error; keeps the packed payload
/// comfortably inside machine limits.
pub const MAX_LIGHTS: usize = 16777216;

/// The four little-endian bytes of `x`.
pub open spec fn u32_le(x: u32) -> Seq<u8> {
    seq![
        (x % 256) as u8,
        ((x / 256) % 256) as u8,
        ((x / 65536) % 256) as u8,
        ((x / 16777216) % 256) as u8,
    ]
}

/// The 16-byte buffer header: the light count, padded to one aligned slot.
pub open spec fn header_bytes(count: u32) -> Seq<u8> {
    u32_le(count) + u32_le(0) + u32_le(0) + u32_le(0)
}

/// The 32-byte packed record of one light: direction, color, intensity and
/// assigned shadow layer, in little-endian words.
pub open spec fn record_bytes(l: InternalDirectionalLight) -> Seq<u8> {
    u32_le(l.inner.direction.x) + u32_le(l.inner.direction.y) + u32_le(l.inner.direction.z)
        + u32_le(l.inner.color.x) + u32_le(l.inner.color.y) + u32_le(l.inner.color.z)
        + u32_le(l.inner.intensity) + u32_le(l.shadow_tex)
}

/// The records of all entries, in registry iteration order.
pub open spec fn records_bytes(entries: Seq<Entry<InternalDirectionalLight>>) -> Seq<u8>
    decreases entries.len(),
{
    if entries.len() == 0 {
        Seq::empty()
    } else {
        records_bytes(entries.drop_last()) + record_bytes(entries.last().value)
    }
}

/// The whole packed payload for a set of entries.
pub open spec fn packed_payload(entries: Seq<Entry<InternalDirectionalLight>>) -> Seq<u8> {
    header_bytes(entries.len() as u32) + records_bytes(entries)
}

/// `change` applied to `light`.
pub open spec fn apply_change(light: DirectionalLight, change: DirectionalLightChange) -> DirectionalLight {
    DirectionalLight {
        color: if change.color is Some {
            change.color->0
        } else {
            light.color
        },
        direction: if change.direction is Some {
            change.direction->0
        } else {
            light.direction
        },
        intensity: if change.intensity is Some {
            change.intensity->0
        } else {
            light.intensity
        },
    }
}

/// Each record is 32 bytes.
pub proof fn lemma_records_len(entries: Seq<Entry<InternalDirectionalLight>>)
    ensures
        records_bytes(entries).len() == 32 * entries.len(),
    decreases entries.len(),
{
    if entries.len() > 0 {
        lemma_records_len(entries.drop_last());
    }
}

/// Appends the four little-endian bytes of `x`.
fn push_u32_le(buf: &mut Vec<u8>, x: u32)
    ensures
        final(buf)@ == old(buf)@ + u32_le(x),
{
    buf.push((x % 256) as u8);
    buf.push(((x / 256) % 256) as u8);
    buf.push(((x / 65536) % 256) as u8);
    buf.push(((x / 16777216) % 256) as u8);
    proof {
        assert(buf@ =~= old(buf)@ + u32_le(x));
    }
}

/// Appends the packed 32-byte record of one light.
fn push_record(buf: &mut Vec<u8>, l: &InternalDirectionalLight)
    ensures
        final(buf)@ == old(buf)@ + record_bytes(*l),
{
    push_u32_le(buf, l.inner.direction.x);
    push_u32_le(buf, l.inner.direction.y);
    push_u32_le(buf, l.inner.direction.z);
    push_u32_le(buf, l.inner.color.x);
    push_u32_le(buf, l.inner.color.y);
    push_u32_le(buf, l.inner.color.z);
    push_u32_le(buf, l.inner.intensity);
    push_u32_le(buf, l.shadow_tex);
    proof {
        assert(buf@ =~= old(buf)@ + record_bytes(*l));
    }
}

/// Manager for the dynamic set of directional lights and their GPU-resident
/// form.
pub struct DirectionalLightManager {
    registry: ResourceRegistry<InternalDirectionalLight>,
    buffer: PotBuffer,
    texture_id: u64,
    layer_count: usize,
    bg: BindGroupId,
}

impl DirectionalLightManager {
    /// The light registry.
    pub closed spec fn lights(self) -> ResourceRegistry<InternalDirectionalLight> {
        self.registry
    }

    /// The packed device buffer.
    pub closed spec fn buf(self) -> PotBuffer {
        self.buffer
    }

    /// Identity of the current shadow texture array.
    pub closed spec fn texture(self) -> nat {
        self.texture_id as nat
    }

    /// Layer count of the current shadow texture array.
    pub closed spec fn layers(self) -> nat {
        self.layer_count as nat
    }

    /// Identity of the cached bind group.
    pub closed spec fn bind_group(self) -> BindGroupId {
        self.bg
    }

    /// Well-formed: the registry and buffer invariants hold, and the cached
    /// bind group references no resource newer than the current ones.
    pub open spec fn wf(self) -> bool {
        &&& self.lights().wf()
        &&& self.buf().wf()
        &&& self.texture() <= u64::MAX
        &&& (self.bind_group().buffer_id as nat) <= self.buf().id()
        &&& (self.bind_group().texture_id as nat) <= self.texture()
    }

    /// A fresh manager: empty registry, minimal buffer, a one-layer texture
    /// array, and a bind group over those initial resources.
    pub fn new() -> (r: Self)
        ensures
            r.wf(),
            r.lights().entries() =~= Seq::<Entry<InternalDirectionalLight>>::empty(),
            r.lights().next() == 0,
            r.layers() == 1,
            r.texture() == 0,
            r.buf().cap() == 1,
            r.buf().id() == 0,
            r.bind_group() == (BindGroupId { buffer_id: 0, texture_id: 0 }),
    {
        DirectionalLightManager {
            registry: ResourceRegistry::new(),
            buffer: PotBuffer::new(),
            texture_id: 0,
            layer_count: 1,
            bg: BindGroupId { buffer_id: 0, texture_id: 0 },
        }
    }

    /// Reserves a handle for a light that will be filled in later.
    pub fn allocate(&mut self) -> (h: Handle)
        requires
            old(self).wf(),
            old(self).lights().next() < usize::MAX,
        ensures
            final(self).wf(),
            final(self).lights().entries() == old(self).lights().entries(),
            final(self).lights().next() == old(self).lights().next() + 1,
            h.idx as nat == old(self).lights().next(),
            final(self).lights().issued(h),
            !final(self).lights().contains(h),
            final(self).buf() == old(self).buf(),
            final(self).texture() == old(self).texture(),
            final(self).layers() == old(self).layers(),
            final(self).bind_group() == old(self).bind_group(),
    {
        self.registry.allocate()
    }

    /// Fills the entry for an allocated handle, deriving its per-instance
    /// state: the light is assigned the shadow texture layer equal to the
    /// number of entries present at fill time.
    pub fn fill(&mut self, handle: Handle, light: DirectionalLight)
        requires
            old(self).wf(),
            old(self).lights().issued(handle),
            old(self).lights().entries().len() < u32::MAX,
        ensures
            final(self).wf(),
            final(self).lights().next() == old(self).lights().next(),
            final(self).lights().live(handle),
            old(self).lights().contains(handle) ==> final(self).lights().entries()
                == old(self).lights().entries().update(
                old(self).lights().index_of(handle),
                (Entry {
                    handle_idx: handle.idx,
                    value: InternalDirectionalLight {
                        inner: light,
                        shadow_tex: old(self).lights().entries().len() as u32,
                    },
                    dead: false,
                }),
            ),
            !old(self).lights().contains(handle) ==> final(self).lights().entries()
                == old(self).lights().entries().push(
                (Entry {
                    handle_idx: handle.idx,
                    value: InternalDirectionalLight {
                        inner: light,
                        shadow_tex: old(self).lights().entries().len() as u32,
                    },
                    dead: false,
                }),
            ),
            final(self).buf() == old(self).buf(),
            final(self).texture() == old(self).texture(),
            final(self).layers() == old(self).layers(),
            final(self).bind_group() == old(self).bind_group(),
    {
        let layer = self.registry.count();
        self.registry.insert(
            handle,
            InternalDirectionalLight { inner: light, shadow_tex: layer as u32 },
        );
    }

    /// Read access to a light's entry. The handle must name an entry that is
    /// not pending removal; that is a caller invariant.
    pub fn get(&self, handle: Handle) -> (r: &InternalDirectionalLight)
        requires
            self.wf(),
            self.lights().live(handle),
        ensures
            *r == self.lights().entries()[self.lights().index_of(handle)].value,
    {
        self.registry.get(handle)
    }

    /// Applies a partial change to a light, re-deriving dependent state for
    /// the changed fields; the assigned shadow layer is kept.
    pub fn update_directional_light(&mut self, handle: Handle, change: DirectionalLightChange)
        requires
            old(self).wf(),
            old(self).lights().live(handle),
        ensures
            final(self).wf(),
            final(self).lights().next() == old(self).lights().next(),
            final(self).lights().entries() == old(self).lights().entries().update(
                old(self).lights().index_of(handle),
                (Entry {
                    handle_idx: handle.idx,
                    value: InternalDirectionalLight {
                        inner: apply_change(
                            old(self).lights().entries()[old(self).lights().index_of(handle)].value.inner,
                            change,
                        ),
                        shadow_tex: old(self).lights().entries()[old(self).lights().index_of(handle)].value.shadow_tex,
                    },
                    dead: false,
                }),
            ),
            final(self).buf() == old(self).buf(),
            final(self).texture() == old(self).texture(),
            final(self).layers() == old(self).layers(),
            final(self).bind_group() == old(self).bind_group(),
    {
        let current = *self.registry.get(handle);
        let mut inner = current.inner;
        match change.color {
            Some(c) => {
                inner.color = c;
            },
            None => {},
        }
        match change.direction {
            Some(d) => {
                inner.direction = d;
            },
            None => {},
        }
        match change.intensity {
            Some(i) => {
                inner.intensity = i;
            },
            None => {},
        }
        proof {
            let j = self.lights().index_of(handle);
            assert(0 <= j < self.lights().entries().len()
                && self.lights().entries()[j].handle_idx == handle.idx);
            assert(self.lights().issued(handle));
            assert(inner == apply_change(current.inner, change));
        }
        self.registry.insert(
            handle,
            InternalDirectionalLight { inner, shadow_tex: current.shadow_tex },
        );
    }

    /// Flags a light for removal. It stays visible to readers until the
    /// next [`Self::ready`] sweeps it.
    pub fn mark_removed(&mut self, handle: Handle)
        requires
            old(self).wf(),
            old(self).lights().contains(handle),
        ensures
            final(self).wf(),
            final(self).lights().next() == old(self).lights().next(),
            final(self).lights().entries() == old(self).lights().entries().update(
                old(self).lights().index_of(handle),
                (Entry {
                    handle_idx: handle.idx,
                    value: old(self).lights().entries()[old(self).lights().index_of(handle)].value,
                    dead: true,
                }),
            ),
            final(self).buf() == old(self).buf(),
            final(self).texture() == old(self).texture(),
            final(self).layers() == old(self).layers(),
            final(self).bind_group() == old(self).bind_group(),
    {
        self.registry.mark_removed(handle);
    }

    /// The bind group layout descriptor; fixed for the manager's lifetime.
    pub fn get_bgl(&self) -> (r: ShadowBindGroupLayout)
        ensures
            r == (ShadowBindGroupLayout { buffer_binding: 0, texture_binding: 1 }),
    {
        ShadowBindGroupLayout { buffer_binding: 0, texture_binding: 1 }
    }

    /// Identity of the current bind group.
    pub fn get_bg(&self) -> (r: BindGroupId)
        ensures
            r == self.bind_group(),
    {
        self.bg
    }

    /// Identity of the single-layer view for `layer` in the current texture
    /// array.
    pub fn get_layer_view(&self, layer: usize) -> (r: LayerViewId)
        requires
            (layer as nat) < self.layers(),
        ensures
            r == (LayerViewId { texture_id: self.texture() as u64, layer }),
    {
        LayerViewId { texture_id: self.texture_id, layer }
    }

    /// The live lights in registry iteration order.
    pub fn values(&self) -> (r: &Vec<InternalDirectionalLight>)
        requires
            self.wf(),
        ensures
            r@.len() == self.lights().entries().len(),
            forall|i: int|
                0 <= i < r@.len() ==> r@[i] == (#[trigger] self.lights().entries()[i]).value,
    {
        self.registry.values()
    }

    /// Number of light entries (including any still pending removal).
    pub fn count(&self) -> (r: usize)
        ensures
            r as nat == self.lights().entries().len(),
    {
        self.registry.count()
    }

    /// Per-frame reconciliation. Sweeps removed lights, recreates the shadow
    /// texture array iff the live count changed (and is nonzero), packs the
    /// buffer payload (header, then one record per light in iteration
    /// order), grows the buffer if needed, and rebuilds the bind group iff
    /// the buffer reallocated or the texture array was recreated — never
    /// otherwise, so an unchanged scene keeps the same bind group identity.
    #[verifier::rlimit(100)]
    pub fn ready(&mut self) -> (r: ReadyOutcome)
        requires
            old(self).wf(),
            old(self).lights().entries().len() <= MAX_LIGHTS,
            old(self).buf().id() < u64::MAX,
            old(self).texture() < u64::MAX,
        ensures
            final(self).wf(),
            final(self).lights().next() == old(self).lights().next(),
            final(self).lights().entries() == swept(old(self).lights().entries()),
            r.removed@ == swept_out(old(self).lights().entries()),
            r.texture_recreated == (final(self).lights().entries().len() != old(self).layers()
                && final(self).lights().entries().len() != 0),
            r.texture_recreated ==> final(self).texture() == old(self).texture() + 1
                && final(self).layers() == final(self).lights().entries().len(),
            !r.texture_recreated ==> final(self).texture() == old(self).texture()
                && final(self).layers() == old(self).layers(),
            r.layer_count as nat == final(self).layers(),
            r.payload@ == packed_payload(final(self).lights().entries()),
            r.payload@.len() == 16 + 32 * final(self).lights().entries().len(),
            r.buffer_reallocated == (r.payload@.len() > old(self).buf().cap()),
            r.buffer_reallocated ==> final(self).buf().id() == old(self).buf().id() + 1
                && final(self).buf().cap() == pot_ceil(r.payload@.len() as nat),
            !r.buffer_reallocated ==> final(self).buf().id() == old(self).buf().id()
                && final(self).buf().cap() == old(self).buf().cap(),
            final(self).buf().logical_len() == r.payload@.len(),
            final(self).buf().hist() == max_nat(old(self).buf().hist(), r.payload@.len()),
            r.buffer_capacity as nat == final(self).buf().cap(),
            r.bind_group_rebuilt == (r.buffer_reallocated || r.texture_recreated),
            r.bind_group_rebuilt ==> final(self).bind_group() == (BindGroupId {
                buffer_id: final(self).buf().id() as u64,
                texture_id: final(self).texture() as u64,
            }),
            !r.bind_group_rebuilt ==> final(self).bind_group() == old(self).bind_group(),
            (final(self).bind_group() == old(self).bind_group()) <==> !r.bind_group_rebuilt,
            r.bind_group == final(self).bind_group(),
    {
        let removed = self.registry.remove_all_dead();
        proof {
            crate::registry::lemma_swept_len(old(self).lights().entries());
        }
        let live = self.registry.count();
        let recreate = live != self.layer_count && live != 0;
        if recreate {
            self.texture_id = self.texture_id + 1;
            self.layer_count = live;
        }

        let ghost entries = self.registry.entries();
        let mut payload: Vec<u8> = Vec::new();
        push_u32_le(&mut payload, live as u32);
        push_u32_le(&mut payload, 0);
        push_u32_le(&mut payload, 0);
        push_u32_le(&mut payload, 0);
        proof {
            assert(payload@ =~= header_bytes(live as u32));
            assert(records_bytes(entries.take(0)) =~= Seq::<u8>::empty());
            assert(payload@ =~= header_bytes(live as u32) + records_bytes(entries.take(0)));
        }
        let vals = self.registry.values();
        let mut i: usize = 0;
        while i < live
            invariant
                live == entries.len(),
                vals@.len() == entries.len(),
                forall|k: int| 0 <= k < vals@.len() ==> vals@[k] == (#[trigger] entries[k]).value,
                i <= live,
                payload@ == header_bytes(live as u32) + records_bytes(entries.take(i as int)),
                payload@.len() == 16 + 32 * i,
            decreases live - i,
        {
            let l = vals[i];
            push_record(&mut payload, &l);
            proof {
                assert(entries.take(i + 1).drop_last() =~= entries.take(i as int));
                assert(entries.take(i + 1).last() == entries[i as int]);
                assert(payload@ =~= header_bytes(live as u32) + records_bytes(entries.take(i + 1)));
            }
            i = i + 1;
        }
        proof {
            assert(entries.take(live as int) =~= entries);
        }

        let reallocated = self.buffer.write(&payload);
        let rebuilt = reallocated || recreate;
        if rebuilt {
            self.bg = BindGroupId { buffer_id: self.buffer.buffer_id(), texture_id: self.texture_id };
        }
        let capacity = self.buffer.capacity();
        ReadyOutcome {
            removed,
            texture_recreated: recreate,
            layer_count: self.layer_count,
            payload,
            buffer_reallocated: reallocated,
            buffer_capacity: capacity,
            bind_group_rebuilt: rebuilt,
            bind_group: self.bg,
        }
    }
}

} // verus!
